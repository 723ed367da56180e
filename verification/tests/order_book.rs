use orderbook::channel::TradeChannel;
use orderbook::models::{BidOrAsk, MatchedOrder, Order, OrderType, Price};
use orderbook::order_book::OrderBook;

const LOT: f64 = 100_000.0;

fn lots(amount: f64) -> u64 {
    (amount * LOT) as u64
}

fn price(value: f64) -> Price {
    Price::new(value as u64, ((value % 1.0) * 100_000.0) as u64)
}

fn test_order(
    id: u64,
    order_type: OrderType,
    bid_or_ask: BidOrAsk,
    amount: f64,
    value: f64,
) -> Order {
    Order {
        id,
        order_type,
        trading_pair: "BTC-USD".to_string(),
        amount: lots(amount),
        price: Some(price(value)),
        timestamp: 0,
        bid_or_ask,
    }
}

fn market_order(id: u64, bid_or_ask: BidOrAsk, amount: f64, limit: Option<f64>) -> Order {
    Order {
        id,
        order_type: OrderType::Market,
        trading_pair: "BTC-USD".to_string(),
        amount: lots(amount),
        price: limit.map(price),
        timestamp: 0,
        bid_or_ask,
    }
}

fn observed_book() -> (OrderBook, usize) {
    let mut book = OrderBook::new(TradeChannel::new());
    let observer = book.subscribe().unwrap();
    (book, observer)
}

fn ids(orders: &[Order]) -> Vec<u64> {
    orders.iter().map(|o| o.id).collect()
}

fn total(trades: &[MatchedOrder]) -> u64 {
    trades.iter().map(|t| t.amount).sum()
}

#[test]
fn test_add_limit_bid_order() {
    let dummy_tx = TradeChannel::new();
    let mut book = OrderBook::new(dummy_tx);

    let order = test_order(1, OrderType::Limit, BidOrAsk::Bid, 1.0, 10000.0);
    book.add_order(order, 0);

    let bids = book.get_all_bids();
    assert_eq!(bids.len(), 1);
    assert_eq!(bids[0].amount, lots(1.0));
}

#[test]
fn test_add_limit_ask_order() {
    let dummy_tx = TradeChannel::new();
    let mut book = OrderBook::new(dummy_tx);

    let order = test_order(2, OrderType::Limit, BidOrAsk::Ask, 2.0, 10500.0);
    book.add_order(order, 0);

    let asks = book.get_all_asks();
    assert_eq!(asks.len(), 1);
    assert_eq!(asks[0].amount, lots(2.0));
}

#[test]
fn test_match_limit_order_bid_hits_ask() {
    let mut book = OrderBook::new(TradeChannel::new());

    let ask = test_order(10, OrderType::Limit, BidOrAsk::Ask, 1.0, 9500.0);
    book.add_order(ask, 0);

    let bid = test_order(11, OrderType::Limit, BidOrAsk::Bid, 1.0, 9600.0);
    let matches = book.match_limit_order(bid);

    assert_eq!(matches.len(), 1);
    assert_eq!(matches[0].matched_with_id, 10);
}

#[test]
fn test_partial_fill() {
    let mut book = OrderBook::new(TradeChannel::new());

    let ask = test_order(1, OrderType::Limit, BidOrAsk::Ask, 2.0, 9500.0);
    book.add_order(ask, 0);

    let bid = test_order(2, OrderType::Limit, BidOrAsk::Bid, 1.0, 9600.0);
    let matched = book.match_limit_order(bid);

    assert_eq!(matched.len(), 1);
    assert_eq!(matched[0].amount, lots(1.0));

    let remaining = book.get_all_asks();
    assert_eq!(remaining.len(), 1);
    assert_eq!(remaining[0].amount, lots(1.0));
}

#[test]
fn test_best_bid_and_ask() {
    let dummy_tx = TradeChannel::new();
    let mut book = OrderBook::new(dummy_tx);

    let ask1 = test_order(1, OrderType::Limit, BidOrAsk::Ask, 1.0, 9800.0);
    let ask2 = test_order(2, OrderType::Limit, BidOrAsk::Ask, 1.0, 9700.0);
    book.add_order(ask1, 0);
    book.add_order(ask2, 0);

    let bid1 = test_order(3, OrderType::Limit, BidOrAsk::Bid, 1.0, 9400.0);
    let bid2 = test_order(4, OrderType::Limit, BidOrAsk::Bid, 1.0, 9600.0);
    book.add_order(bid1, 0);
    book.add_order(bid2, 0);

    let best_ask = book.get_best_ask().unwrap();
    let best_bid = book.get_best_bid().unwrap();

    assert_eq!(best_ask.integral(), 9700);
    assert_eq!(best_bid.integral(), 9600);
}

#[test]
fn resting_limit_bid_is_listed_and_is_best() {
    let (mut book, observer) = observed_book();
    book.add_order(test_order(1, OrderType::Limit, BidOrAsk::Bid, 1.0, 10000.0), 42);

    assert!(book.take_trades(observer).is_empty());
    let bids = book.get_all_bids();
    assert_eq!(bids.len(), 1);
    assert_eq!(bids[0].id, 1);
    assert_eq!(bids[0].amount, lots(1.0));
    assert_eq!(bids[0].price, Some(price(10000.0)));
    assert_eq!(bids[0].timestamp, 42);
    assert_eq!(book.get_best_bid().unwrap().integral(), 10000);
    assert!(book.get_best_ask().is_none());
    assert!(book.get_all_asks().is_empty());
}

#[test]
fn crossing_limit_bid_trades_at_the_resting_price() {
    let (mut book, observer) = observed_book();
    book.add_order(test_order(10, OrderType::Limit, BidOrAsk::Ask, 1.0, 9500.0), 0);
    book.add_order(test_order(11, OrderType::Limit, BidOrAsk::Bid, 1.0, 9600.0), 0);

    let trades = book.take_trades(observer);
    assert_eq!(
        trades,
        vec![MatchedOrder {
            id: 11,
            matched_with_id: 10,
            order_type: OrderType::Limit,
            price: price(9500.0),
            amount: lots(1.0),
            bid_or_ask: BidOrAsk::Bid,
        }]
    );
    assert!(book.get_orders().is_empty());
    assert!(book.get_best_bid().is_none());
    assert!(book.get_best_ask().is_none());
}

#[test]
fn partial_fill_leaves_the_rest_of_the_resting_order() {
    let (mut book, observer) = observed_book();
    book.add_order(test_order(1, OrderType::Limit, BidOrAsk::Ask, 2.0, 9500.0), 0);
    book.add_order(test_order(2, OrderType::Limit, BidOrAsk::Bid, 1.0, 9600.0), 0);

    let trades = book.take_trades(observer);
    assert_eq!(trades.len(), 1);
    assert_eq!(trades[0].amount, lots(1.0));
    assert_eq!(trades[0].price, price(9500.0));

    let asks = book.get_all_asks();
    assert_eq!(asks.len(), 1);
    assert_eq!(asks[0].id, 1);
    assert_eq!(asks[0].amount, lots(1.0));
    assert_eq!(asks[0].price, Some(price(9500.0)));
    assert!(book.get_all_bids().is_empty());
}

#[test]
fn market_order_sweeps_depth() {
    let (mut book, observer) = observed_book();
    book.add_order(test_order(1, OrderType::Limit, BidOrAsk::Ask, 1.0, 100.0), 0);
    book.add_order(test_order(2, OrderType::Limit, BidOrAsk::Ask, 2.0, 101.0), 0);

    book.add_order(market_order(3, BidOrAsk::Bid, 2.5, None), 0);

    let trades = book.take_trades(observer);
    assert_eq!(trades.len(), 2);
    assert_eq!(
        (trades[0].matched_with_id, trades[0].price, trades[0].amount),
        (1, price(100.0), lots(1.0))
    );
    assert_eq!(
        (trades[1].matched_with_id, trades[1].price, trades[1].amount),
        (2, price(101.0), lots(1.5))
    );
    assert_eq!(trades[0].id, 3);
    assert_eq!(trades[0].order_type, OrderType::Market);
    assert_eq!(total(&trades), lots(2.5));

    let asks = book.get_all_asks();
    assert_eq!(asks.len(), 1);
    assert_eq!(asks[0].id, 2);
    assert_eq!(asks[0].amount, lots(0.5));
    assert_eq!(asks[0].price, Some(price(101.0)));
    assert!(book.get_all_bids().is_empty());
}

#[test]
fn protective_price_stops_a_market_order() {
    let (mut book, observer) = observed_book();
    book.add_order(test_order(1, OrderType::Limit, BidOrAsk::Ask, 1.0, 110.0), 0);

    book.add_order(market_order(2, BidOrAsk::Bid, 1.0, Some(100.0)), 0);

    assert!(book.take_trades(observer).is_empty());
    let asks = book.get_all_asks();
    assert_eq!(asks.len(), 1);
    assert_eq!(asks[0].id, 1);
    assert_eq!(asks[0].amount, lots(1.0));
    assert!(book.get_all_bids().is_empty());
}

#[test]
fn limit_that_does_not_cross_rests_behind_earlier_orders() {
    let (mut book, observer) = observed_book();
    book.add_order(test_order(1, OrderType::Limit, BidOrAsk::Ask, 1.0, 105.0), 0);
    book.add_order(test_order(2, OrderType::Limit, BidOrAsk::Bid, 1.0, 100.0), 0);
    book.add_order(test_order(3, OrderType::Limit, BidOrAsk::Bid, 2.0, 100.0), 0);
    book.add_order(test_order(4, OrderType::Limit, BidOrAsk::Bid, 3.0, 99.0), 0);
    book.add_order(test_order(5, OrderType::Limit, BidOrAsk::Bid, 4.0, 100.0), 0);

    assert!(book.take_trades(observer).is_empty());
    let bids = book.get_all_bids();
    assert_eq!(ids(&bids), vec![4, 2, 3, 5]);
    assert_eq!(bids[3].amount, lots(4.0));
    assert_eq!(ids(&book.get_orders()), vec![4, 2, 3, 5, 1]);
}

#[test]
fn aggressor_equal_to_head_takes_exactly_the_head() {
    let (mut book, observer) = observed_book();
    book.add_order(test_order(1, OrderType::Limit, BidOrAsk::Ask, 1.0, 100.0), 0);
    book.add_order(test_order(2, OrderType::Limit, BidOrAsk::Ask, 2.0, 100.0), 0);

    book.add_order(test_order(3, OrderType::Limit, BidOrAsk::Bid, 1.0, 100.0), 0);

    let trades = book.take_trades(observer);
    assert_eq!(trades.len(), 1);
    assert_eq!(trades[0].matched_with_id, 1);
    assert_eq!(trades[0].amount, lots(1.0));
    assert_eq!(ids(&book.get_all_asks()), vec![2]);
    assert!(book.get_all_bids().is_empty());
}

#[test]
fn limit_larger_than_depth_rests_with_the_residual() {
    let (mut book, observer) = observed_book();
    book.add_order(test_order(1, OrderType::Limit, BidOrAsk::Ask, 1.0, 100.0), 0);
    book.add_order(test_order(2, OrderType::Limit, BidOrAsk::Ask, 1.0, 101.0), 0);

    book.add_order(test_order(3, OrderType::Limit, BidOrAsk::Bid, 5.0, 102.0), 7);

    let trades = book.take_trades(observer);
    assert_eq!(trades.len(), 2);
    assert_eq!(total(&trades), lots(2.0));
    assert!(book.get_all_asks().is_empty());
    let bids = book.get_all_bids();
    assert_eq!(bids.len(), 1);
    assert_eq!(bids[0].id, 3);
    assert_eq!(bids[0].amount, lots(3.0));
    assert_eq!(bids[0].price, Some(price(102.0)));
    assert_eq!(bids[0].timestamp, 7);
    assert_eq!(book.get_best_bid(), Some(price(102.0)));
}

#[test]
fn market_larger_than_depth_drops_the_residual() {
    let (mut book, observer) = observed_book();
    book.add_order(test_order(1, OrderType::Limit, BidOrAsk::Bid, 1.0, 100.0), 0);
    book.add_order(test_order(2, OrderType::Limit, BidOrAsk::Bid, 1.0, 99.0), 0);

    book.add_order(market_order(3, BidOrAsk::Ask, 5.0, None), 0);

    let trades = book.take_trades(observer);
    assert_eq!(trades.len(), 2);
    assert_eq!(trades[0].price, price(100.0));
    assert_eq!(trades[1].price, price(99.0));
    assert_eq!(total(&trades), lots(2.0));
    assert!(book.get_orders().is_empty());
    assert!(book.get_market_orders_to_match().is_empty());
}

#[test]
fn incoming_ask_takes_the_highest_bid_first() {
    let mut book = OrderBook::new(TradeChannel::new());
    book.add_order(test_order(1, OrderType::Limit, BidOrAsk::Bid, 1.0, 9400.0), 0);
    book.add_order(test_order(2, OrderType::Limit, BidOrAsk::Bid, 1.0, 9600.0), 0);
    book.add_order(test_order(3, OrderType::Limit, BidOrAsk::Bid, 1.0, 9500.0), 0);

    let ask = test_order(4, OrderType::Limit, BidOrAsk::Ask, 3.0, 9500.0);
    let trades = book.match_limit_order(ask);

    assert_eq!(trades.len(), 2);
    assert_eq!((trades[0].matched_with_id, trades[0].price), (2, price(9600.0)));
    assert_eq!((trades[1].matched_with_id, trades[1].price), (3, price(9500.0)));
    assert_eq!(trades[0].bid_or_ask, BidOrAsk::Ask);
    assert_eq!(ids(&book.get_all_bids()), vec![1]);
    assert!(book.get_all_asks().is_empty());
}

#[test]
fn limit_bid_never_pays_more_than_its_price() {
    let (mut book, observer) = observed_book();
    book.add_order(test_order(1, OrderType::Limit, BidOrAsk::Ask, 1.0, 100.0), 0);
    book.add_order(test_order(2, OrderType::Limit, BidOrAsk::Ask, 1.0, 100.5), 0);
    book.add_order(test_order(3, OrderType::Limit, BidOrAsk::Ask, 1.0, 101.0), 0);

    book.add_order(test_order(4, OrderType::Limit, BidOrAsk::Bid, 10.0, 100.5), 0);

    let trades = book.take_trades(observer);
    assert_eq!(trades.len(), 2);
    assert!(trades.iter().all(|t| t.price <= price(100.5)));
    assert!(trades[0].price <= trades[1].price);
    assert_eq!(ids(&book.get_all_asks()), vec![3]);
    assert_eq!(book.get_best_bid(), Some(price(100.5)));
    assert_eq!(book.get_best_ask(), Some(price(101.0)));
    assert!(book.get_best_bid().unwrap() < book.get_best_ask().unwrap());
}

#[test]
fn resting_orders_at_one_price_are_served_in_arrival_order() {
    let mut book = OrderBook::new(TradeChannel::new());
    book.add_order(test_order(1, OrderType::Limit, BidOrAsk::Ask, 1.0, 100.0), 0);
    book.add_order(test_order(2, OrderType::Limit, BidOrAsk::Ask, 1.0, 100.0), 0);
    book.add_order(test_order(3, OrderType::Limit, BidOrAsk::Ask, 1.0, 100.0), 0);

    let trades = book.match_market_order(market_order(9, BidOrAsk::Bid, 2.5, None));

    let served: Vec<(u64, u64)> = trades.iter().map(|t| (t.matched_with_id, t.amount)).collect();
    assert_eq!(served, vec![(1, lots(1.0)), (2, lots(1.0)), (3, lots(0.5))]);
    let asks = book.get_all_asks();
    assert_eq!(asks.len(), 1);
    assert_eq!((asks[0].id, asks[0].amount), (3, lots(0.5)));
}

#[test]
fn quantity_is_conserved_by_a_submission() {
    let (mut book, observer) = observed_book();
    book.add_order(test_order(1, OrderType::Limit, BidOrAsk::Ask, 1.5, 100.0), 0);
    book.add_order(test_order(2, OrderType::Limit, BidOrAsk::Ask, 2.0, 101.0), 0);
    book.add_order(test_order(3, OrderType::Limit, BidOrAsk::Bid, 1.0, 90.0), 0);
    let asks_before: u64 = book.get_all_asks().iter().map(|o| o.amount).sum();
    let bids_before: u64 = book.get_all_bids().iter().map(|o| o.amount).sum();

    book.add_order(test_order(4, OrderType::Limit, BidOrAsk::Bid, 2.0, 100.0), 0);

    let traded = total(&book.take_trades(observer));
    let asks_after: u64 = book.get_all_asks().iter().map(|o| o.amount).sum();
    let bids_after: u64 = book.get_all_bids().iter().map(|o| o.amount).sum();
    assert_eq!(traded, lots(1.5));
    assert_eq!(asks_after + traded, asks_before);
    assert_eq!(bids_after, bids_before + (lots(2.0) - traded));
    assert!(book.get_all_bids().iter().all(|o| o.amount > 0));
    assert!(book.get_all_asks().iter().all(|o| o.amount > 0));
}

#[test]
fn self_trade_is_matched_like_any_other() {
    let mut book = OrderBook::new(TradeChannel::new());
    book.add_order(test_order(7, OrderType::Limit, BidOrAsk::Ask, 1.0, 100.0), 0);
    let trades = book.match_limit_order(test_order(7, OrderType::Limit, BidOrAsk::Bid, 1.0, 100.0));
    assert_eq!(trades.len(), 1);
    assert_eq!((trades[0].id, trades[0].matched_with_id), (7, 7));
}

#[test]
fn match_limit_order_parks_nothing() {
    let mut book = OrderBook::new(TradeChannel::new());
    let trades = book.match_limit_order(test_order(1, OrderType::Limit, BidOrAsk::Bid, 1.0, 100.0));
    assert!(trades.is_empty());
    assert!(book.get_orders().is_empty());
}

#[test]
fn order_is_found_by_id_bids_before_asks() {
    let mut book = OrderBook::new(TradeChannel::new());
    book.add_order(test_order(1, OrderType::Limit, BidOrAsk::Ask, 1.0, 105.0), 0);
    book.add_order(test_order(2, OrderType::Limit, BidOrAsk::Bid, 2.0, 100.0), 0);
    book.add_order(test_order(1, OrderType::Limit, BidOrAsk::Bid, 3.0, 101.0), 0);

    let found = book.get_order_by_id(1).unwrap();
    assert_eq!(found.bid_or_ask, BidOrAsk::Bid);
    assert_eq!(found.amount, lots(3.0));
    assert_eq!(book.get_order_by_id(2).unwrap().amount, lots(2.0));
    assert!(book.get_order_by_id(3).is_none());
}

#[test]
fn resting_orders_are_all_limit_orders() {
    let mut book = OrderBook::new(TradeChannel::new());
    book.add_order(test_order(1, OrderType::Limit, BidOrAsk::Ask, 1.0, 105.0), 0);
    book.add_order(test_order(2, OrderType::Limit, BidOrAsk::Bid, 2.0, 100.0), 0);
    book.add_order(market_order(3, BidOrAsk::Bid, 5.0, Some(104.0)), 0);

    assert!(book.get_market_orders_to_match().is_empty());
    assert_eq!(ids(&book.get_limit_orders_to_match()), vec![2, 1]);
}

#[test]
fn fills_are_published_once_and_in_order() {
    let (mut book, observer) = observed_book();
    book.add_order(test_order(1, OrderType::Limit, BidOrAsk::Ask, 1.0, 100.0), 0);
    book.add_order(test_order(2, OrderType::Limit, BidOrAsk::Ask, 1.0, 101.0), 0);
    let first = book.match_limit_order(test_order(3, OrderType::Limit, BidOrAsk::Bid, 1.0, 100.0));
    book.add_order(test_order(4, OrderType::Limit, BidOrAsk::Bid, 1.0, 101.0), 0);

    let published = book.take_trades(observer);
    assert_eq!(published.len(), 2);
    assert_eq!(published[0], first[0]);
    assert_eq!((published[1].id, published[1].matched_with_id), (4, 2));
    assert!(book.take_trades(observer).is_empty());
}

#[test]
fn book_without_channel_publishes_nothing() {
    let mut book = OrderBook::default();
    assert_eq!(book.subscribe(), None);
    book.add_order(test_order(1, OrderType::Limit, BidOrAsk::Ask, 1.0, 100.0), 0);
    let trades = book.match_market_order(market_order(2, BidOrAsk::Bid, 1.0, None));
    assert_eq!(trades.len(), 1);
    assert!(book.take_trades(0).is_empty());
    assert!(book.get_orders().is_empty());
}

#[test]
fn late_observer_does_not_see_earlier_fills() {
    let (mut book, early) = observed_book();
    book.add_order(test_order(1, OrderType::Limit, BidOrAsk::Ask, 2.0, 100.0), 0);
    book.add_order(test_order(2, OrderType::Limit, BidOrAsk::Bid, 1.0, 100.0), 0);
    let late = book.subscribe().unwrap();
    assert_ne!(early, late);
    book.add_order(test_order(3, OrderType::Limit, BidOrAsk::Bid, 1.0, 100.0), 0);

    let seen_early: Vec<u64> = book.take_trades(early).iter().map(|t| t.id).collect();
    let seen_late: Vec<u64> = book.take_trades(late).iter().map(|t| t.id).collect();
    assert_eq!(seen_early, vec![2, 3]);
    assert_eq!(seen_late, vec![3]);

    book.unsubscribe(early);
    book.add_order(test_order(4, OrderType::Limit, BidOrAsk::Ask, 1.0, 100.0), 0);
    book.add_order(test_order(5, OrderType::Limit, BidOrAsk::Bid, 1.0, 100.0), 0);
    assert!(book.take_trades(early).is_empty());
    assert_eq!(book.take_trades(late).len(), 1);
}

#[test]
fn order_with_no_quantity_neither_trades_nor_rests() {
    let (mut book, observer) = observed_book();
    book.add_order(test_order(1, OrderType::Limit, BidOrAsk::Ask, 1.0, 100.0), 0);
    book.add_order(test_order(2, OrderType::Limit, BidOrAsk::Bid, 0.0, 100.0), 0);
    assert!(book.take_trades(observer).is_empty());
    assert_eq!(ids(&book.get_orders()), vec![1]);
}
