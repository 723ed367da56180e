use orderbook::channel::TradeChannel;
use orderbook::models::{BidOrAsk, MatchedOrder, OrderType, Price};

fn trade(id: u64, amount: u64) -> MatchedOrder {
    MatchedOrder {
        id,
        matched_with_id: id + 100,
        order_type: OrderType::Limit,
        price: Price::new(10, 0),
        amount,
        bid_or_ask: BidOrAsk::Bid,
    }
}

#[test]
fn channel_hands_out_fills_in_sending_order() {
    let mut channel = TradeChannel::new();
    let observer = channel.subscribe();
    assert!(channel.is_attached(observer));
    channel.send(trade(1, 5));
    channel.send_all(&vec![trade(2, 6), trade(3, 7)]);
    assert_eq!(channel.try_recv(observer), Some(trade(1, 5)));
    assert_eq!(channel.try_recv(observer), Some(trade(2, 6)));
    channel.send(trade(4, 8));
    assert_eq!(channel.try_recv(observer), Some(trade(3, 7)));
    assert_eq!(channel.try_recv(observer), Some(trade(4, 8)));
    assert_eq!(channel.try_recv(observer), None);
}

#[test]
fn channel_drain_takes_everything_once() {
    let mut channel = TradeChannel::new();
    let observer = channel.subscribe();
    channel.send_all(&vec![trade(1, 1), trade(2, 2)]);
    assert_eq!(channel.drain(observer), vec![trade(1, 1), trade(2, 2)]);
    assert!(channel.drain(observer).is_empty());
    assert_eq!(channel.try_recv(observer), None);
}

#[test]
fn channel_gives_every_observer_its_own_copy() {
    let mut channel = TradeChannel::new();
    let first = channel.subscribe();
    channel.send(trade(1, 1));
    let second = channel.subscribe();
    assert_ne!(first, second);
    channel.send(trade(2, 2));

    assert_eq!(channel.drain(second), vec![trade(2, 2)]);
    assert_eq!(channel.try_recv(first), Some(trade(1, 1)));
    assert_eq!(channel.try_recv(first), Some(trade(2, 2)));
    assert_eq!(channel.try_recv(first), None);
}

#[test]
fn channel_forgets_a_detached_observer() {
    let mut channel = TradeChannel::new();
    let first = channel.subscribe();
    let second = channel.subscribe();
    channel.send(trade(1, 1));
    channel.unsubscribe(first);
    assert!(!channel.is_attached(first));
    assert!(channel.is_attached(second));
    assert_eq!(channel.try_recv(first), None);
    assert!(channel.drain(first).is_empty());
    channel.unsubscribe(99);

    let again = channel.subscribe();
    assert!(channel.is_attached(again));
    assert_eq!(channel.try_recv(again), None);
    channel.send(trade(2, 2));
    assert_eq!(channel.drain(again), vec![trade(2, 2)]);
    assert_eq!(channel.drain(second), vec![trade(1, 1), trade(2, 2)]);
}

#[test]
fn channel_without_observer_keeps_nothing() {
    let mut channel = TradeChannel::new();
    channel.send(trade(1, 1));
    let observer = channel.subscribe();
    assert_eq!(channel.try_recv(observer), None);
    assert!(!channel.is_attached(observer + 1));
}
