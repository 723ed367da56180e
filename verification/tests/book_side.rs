use orderbook::book_side::BookSide;
use orderbook::models::{BidOrAsk, Order, OrderType, Price};

fn resting(id: u64, side: BidOrAsk, amount: u64, whole: u64) -> Order {
    Order::new(
        id,
        OrderType::Limit,
        "BTC-USD".to_string(),
        amount,
        Some(Price::new(whole, 0)),
        0,
        side,
    )
}

fn taker(id: u64, kind: OrderType, side: BidOrAsk, amount: u64, limit: Option<u64>) -> Order {
    Order::new(
        id,
        kind,
        "BTC-USD".to_string(),
        amount,
        limit.map(|whole| Price::new(whole, 0)),
        0,
        side,
    )
}

#[test]
fn side_best_is_lowest_ask_and_highest_bid() {
    let mut asks = BookSide::new(BidOrAsk::Ask);
    let mut bids = BookSide::new(BidOrAsk::Bid);
    assert_eq!(asks.best(), None);
    assert_eq!(bids.best_key(), None);
    for (id, whole) in [(1, 12), (2, 10), (3, 11)] {
        asks.push_back(resting(id, BidOrAsk::Ask, 1, whole));
        bids.push_back(resting(id, BidOrAsk::Bid, 1, whole));
    }
    assert_eq!(asks.best(), Some(Price::new(10, 0)));
    assert_eq!(bids.best(), Some(Price::new(12, 0)));
    assert_eq!(asks.best_key(), Some(Price::new(10, 0).key()));
    assert_eq!(asks.len(), 3);
    let listed: Vec<u64> = bids.orders().iter().map(|o| o.id).collect();
    assert_eq!(listed, vec![2, 3, 1]);
}

#[test]
fn side_fill_reports_what_is_left_of_the_taker() {
    let mut asks = BookSide::new(BidOrAsk::Ask);
    asks.push_back(resting(1, BidOrAsk::Ask, 3, 10));
    asks.push_back(resting(2, BidOrAsk::Ask, 4, 10));
    asks.push_back(resting(3, BidOrAsk::Ask, 5, 11));
    let (trades, left) = asks.fill(&resting(9, BidOrAsk::Bid, 20, 10));

    let served: Vec<(u64, u64)> = trades.iter().map(|t| (t.matched_with_id, t.amount)).collect();
    assert_eq!(served, vec![(1, 3), (2, 4)]);
    assert_eq!(left, 13);
    assert_eq!(asks.len(), 1);
    assert_eq!(asks.find(3).map(|o| o.amount), Some(5));
    assert!(asks.find(1).is_none());
}

#[test]
fn side_drops_a_level_when_its_queue_is_used_up() {
    let mut asks = BookSide::new(BidOrAsk::Ask);
    asks.push_back(resting(1, BidOrAsk::Ask, 3, 10));
    asks.push_back(resting(2, BidOrAsk::Ask, 4, 11));
    assert_eq!(asks.len(), 2);

    let (trades, left) = asks.fill(&taker(9, OrderType::Limit, BidOrAsk::Bid, 3, Some(10)));

    assert_eq!(trades.len(), 1);
    assert_eq!(left, 0);
    assert_eq!(asks.len(), 1);
    assert_eq!(asks.best(), Some(Price::new(11, 0)));
    assert!(asks.orders().iter().all(|o| o.amount > 0));
}

#[test]
fn side_fill_never_hands_out_more_than_the_taker_asked_for() {
    let mut bids = BookSide::new(BidOrAsk::Bid);
    bids.push_back(resting(1, BidOrAsk::Bid, 5, 10));
    bids.push_back(resting(2, BidOrAsk::Bid, 5, 9));
    bids.push_back(resting(3, BidOrAsk::Bid, 5, 8));

    let (trades, left) = bids.fill(&taker(9, OrderType::Market, BidOrAsk::Ask, 12, None));

    let amounts: Vec<u64> = trades.iter().map(|t| t.amount).collect();
    assert_eq!(amounts, vec![5, 5, 2]);
    assert_eq!(amounts.iter().sum::<u64>() + left, 12);
    assert_eq!(left, 0);
    assert_eq!(bids.len(), 1);
    assert_eq!(bids.find(3).map(|o| o.amount), Some(3));
}

#[test]
fn side_fill_stops_at_the_first_level_out_of_reach() {
    let mut bids = BookSide::new(BidOrAsk::Bid);
    bids.push_back(resting(1, BidOrAsk::Bid, 5, 10));
    bids.push_back(resting(2, BidOrAsk::Bid, 5, 9));
    bids.push_back(resting(3, BidOrAsk::Bid, 5, 8));

    let (trades, left) = bids.fill(&taker(9, OrderType::Limit, BidOrAsk::Ask, 50, Some(9)));

    let served: Vec<u64> = trades.iter().map(|t| t.matched_with_id).collect();
    assert_eq!(served, vec![1, 2]);
    assert_eq!(left, 40);
    assert_eq!(bids.best(), Some(Price::new(8, 0)));
}

#[test]
fn side_fill_with_nothing_to_give_changes_nothing() {
    let mut asks = BookSide::new(BidOrAsk::Ask);
    asks.push_back(resting(1, BidOrAsk::Ask, 3, 10));

    let (trades, left) = asks.fill(&taker(9, OrderType::Market, BidOrAsk::Bid, 0, None));
    assert!(trades.is_empty());
    assert_eq!(left, 0);
    assert_eq!(asks.len(), 1);

    let mut empty = BookSide::new(BidOrAsk::Ask);
    let (trades, left) = empty.fill(&taker(9, OrderType::Market, BidOrAsk::Bid, 7, None));
    assert!(trades.is_empty());
    assert_eq!(left, 7);
    assert_eq!(empty.len(), 0);
    assert!(empty.orders().is_empty());
    assert!(empty.find(1).is_none());
}

#[test]
fn side_append_orders_keeps_what_was_there() {
    let mut asks = BookSide::new(BidOrAsk::Ask);
    asks.push_back(resting(1, BidOrAsk::Ask, 3, 11));
    asks.push_back(resting(2, BidOrAsk::Ask, 3, 10));
    let mut out = vec![resting(7, BidOrAsk::Bid, 1, 1)];
    asks.append_orders(&mut out);
    let listed: Vec<u64> = out.iter().map(|o| o.id).collect();
    assert_eq!(listed, vec![7, 2, 1]);
}
