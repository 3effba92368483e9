use orderbook::amount::Amount;
use orderbook::order::{Order, OrderSide, OrderTimeInForce, OrderType};
use orderbook::order_book::OrderBook;
use rust_decimal::Decimal;

fn amount(d: Decimal) -> Amount {
    Amount::new(d.mantissa(), d.scale()).unwrap()
}

fn order(oid: u64, side: OrderSide, t: OrderType, price: i64) -> Order {
    Order {
        oid,
        sid: 1,
        uid: 100 + oid as u32,
        price: amount(Decimal::from(price)),
        quantity: amount(Decimal::from(10)),
        balance: amount(Decimal::from(10)),
        t,
        side,
        tif: OrderTimeInForce::GTC,
        ts: 1000 + oid,
    }
}

fn same(a: &Order, b: &Order) -> bool {
    a.oid == b.oid
        && a.sid == b.sid
        && a.uid == b.uid
        && (a.price.mantissa(), a.price.scale()) == (b.price.mantissa(), b.price.scale())
        && (a.quantity.mantissa(), a.quantity.scale())
            == (b.quantity.mantissa(), b.quantity.scale())
        && (a.balance.mantissa(), a.balance.scale()) == (b.balance.mantissa(), b.balance.scale())
        && a.t == b.t
        && a.side == b.side
        && a.tif == b.tif
        && a.ts == b.ts
}

fn drain_bids(book: &mut OrderBook) -> Vec<Order> {
    let mut out = Vec::new();
    while let Some(bid) = book.remove_best_bid() {
        out.push(bid);
    }
    out
}

fn drain_asks(book: &mut OrderBook) -> Vec<Order> {
    let mut out = Vec::new();
    while let Some(ask) = book.remove_best_ask() {
        out.push(ask);
    }
    out
}

#[test]
pub fn test_order_book_sort() {
    let mut book = OrderBook::new();
    for i in 0..10 {
        let mut order = Order::default();
        order.oid = i;
        order.price = amount(Decimal::from(i));
        order.side = OrderSide::Bid;
        book.place_order(order.clone());

        order.side = OrderSide::Ask;
        book.place_order(order);
    }
    let mut seen = Vec::new();
    loop {
        if let Some(bid) = book.remove_best_bid() {
            println!("{} {}", bid.oid, bid.price.mantissa());
            seen.push(bid.oid);
        } else {
            break;
        }
    }
    assert_eq!(seen, vec![9, 8, 7, 6, 5, 4, 3, 2, 1, 0]);
}

#[test]
fn ten_bids_drain_from_the_highest_price_down() {
    let mut book = OrderBook::new();
    for i in 0..10u64 {
        let mut order = Order::default();
        order.oid = i;
        order.price = amount(Decimal::from(i));
        order.side = OrderSide::Bid;
        order.t = OrderType::Limit;
        book.place_order(order);
    }
    for expected in (0..10u64).rev() {
        let peeked = *book.peek_best_bid().unwrap();
        assert_eq!(peeked.oid, expected);
        let bid = book.remove_best_bid().unwrap();
        assert_eq!(bid.oid, expected);
        assert_eq!(bid.price, amount(Decimal::from(expected)));
        assert_eq!(bid.price.mantissa(), expected as i128);
        assert_eq!(bid.side, OrderSide::Bid);
    }
    assert!(book.remove_best_bid().is_none());
    assert!(book.peek_best_bid().is_none());
}

#[test]
fn ten_asks_drain_from_the_lowest_price_up() {
    let mut book = OrderBook::new();
    for i in (0..10u64).rev() {
        book.place_order(order(i, OrderSide::Ask, OrderType::Limit, i as i64));
    }
    let drained = drain_asks(&mut book);
    let ids: Vec<u64> = drained.iter().map(|o| o.oid).collect();
    assert_eq!(ids, vec![0, 1, 2, 3, 4, 5, 6, 7, 8, 9]);
    assert!(book.remove_best_ask().is_none());
}

#[test]
fn new_book_is_empty() {
    let mut book = OrderBook::new();
    assert!(book.peek_best_bid().is_none());
    assert!(book.peek_best_ask().is_none());
    assert!(book.remove_best_bid().is_none());
    assert!(book.remove_best_ask().is_none());
    assert!(book.get(0).is_none());
}

#[test]
fn removing_from_an_empty_book_finds_nothing() {
    let mut book = OrderBook::new();
    assert!(book.remove_order(1).is_none());
    assert!(book.remove_order(0).is_none());
    assert!(book.get(1).is_none());
    assert!(book.peek_best_bid().is_none());
    assert!(book.peek_best_ask().is_none());
    book.place_order(order(1, OrderSide::Bid, OrderType::Limit, 5));
    assert_eq!(book.peek_best_bid().unwrap().oid, 1);
}

#[test]
fn removing_an_unknown_identifier_leaves_the_book_alone() {
    let mut book = OrderBook::new();
    book.place_order(order(1, OrderSide::Bid, OrderType::Limit, 5));
    book.place_order(order(2, OrderSide::Ask, OrderType::Limit, 6));
    assert!(book.remove_order(3).is_none());
    assert_eq!(book.peek_best_bid().unwrap().oid, 1);
    assert_eq!(book.peek_best_ask().unwrap().oid, 2);
    assert!(book.get(1).is_some());
    assert!(book.get(2).is_some());
}

#[test]
fn place_then_remove_returns_the_order_unchanged() {
    let placed = Order {
        oid: 77,
        sid: 4,
        uid: 5,
        price: Amount::new(123450, 3).unwrap(),
        quantity: Amount::new(900, 1).unwrap(),
        balance: Amount::new(45, 0).unwrap(),
        t: OrderType::Stop,
        side: OrderSide::Ask,
        tif: OrderTimeInForce::FOK,
        ts: 31337,
    };
    let mut book = OrderBook::new();
    book.place_order(order(1, OrderSide::Ask, OrderType::Limit, 5));
    book.place_order(placed);
    assert!(same(book.get(77).unwrap(), &placed));
    let back = book.remove_order(77).unwrap();
    assert!(same(&back, &placed));
    assert!(book.get(77).is_none());
    assert!(book.remove_order(77).is_none());
    assert_eq!(book.peek_best_ask().unwrap().oid, 1);
}

#[test]
fn removed_orders_leave_their_side() {
    let mut book = OrderBook::new();
    for i in 0..6u64 {
        book.place_order(order(i, OrderSide::Bid, OrderType::Limit, i as i64));
    }
    assert_eq!(book.remove_order(5).unwrap().oid, 5);
    assert_eq!(book.remove_order(2).unwrap().oid, 2);
    assert_eq!(book.remove_order(0).unwrap().oid, 0);
    let ids: Vec<u64> = drain_bids(&mut book).iter().map(|o| o.oid).collect();
    assert_eq!(ids, vec![4, 3, 1]);
}

#[test]
fn peek_does_not_remove() {
    let mut book = OrderBook::new();
    book.place_order(order(1, OrderSide::Bid, OrderType::Limit, 5));
    book.place_order(order(2, OrderSide::Bid, OrderType::Limit, 7));
    book.place_order(order(3, OrderSide::Ask, OrderType::Limit, 9));
    book.place_order(order(4, OrderSide::Ask, OrderType::Limit, 8));
    assert_eq!(book.peek_best_bid().unwrap().oid, 2);
    assert_eq!(book.peek_best_bid().unwrap().oid, 2);
    assert_eq!(book.peek_best_ask().unwrap().oid, 4);
    assert_eq!(book.peek_best_ask().unwrap().oid, 4);
    assert_eq!(book.remove_best_bid().unwrap().oid, 2);
    assert_eq!(book.remove_best_ask().unwrap().oid, 4);
    assert_eq!(book.peek_best_bid().unwrap().oid, 1);
    assert_eq!(book.peek_best_ask().unwrap().oid, 3);
}

#[test]
fn earlier_bid_wins_at_equal_price() {
    let mut book = OrderBook::new();
    book.place_order(order(8, OrderSide::Bid, OrderType::Limit, 50));
    book.place_order(order(3, OrderSide::Bid, OrderType::Limit, 50));
    book.place_order(order(5, OrderSide::Bid, OrderType::Limit, 50));
    assert_eq!(book.peek_best_bid().unwrap().oid, 3);
    let ids: Vec<u64> = drain_bids(&mut book).iter().map(|o| o.oid).collect();
    assert_eq!(ids, vec![3, 5, 8]);
}

#[test]
fn earlier_ask_wins_at_equal_price() {
    let mut book = OrderBook::new();
    book.place_order(order(8, OrderSide::Ask, OrderType::Limit, 50));
    book.place_order(order(3, OrderSide::Ask, OrderType::Limit, 50));
    book.place_order(order(5, OrderSide::Ask, OrderType::Limit, 50));
    assert_eq!(book.peek_best_ask().unwrap().oid, 3);
    let ids: Vec<u64> = drain_asks(&mut book).iter().map(|o| o.oid).collect();
    assert_eq!(ids, vec![3, 5, 8]);
}

#[test]
fn equal_prices_in_different_scales_tie() {
    let mut book = OrderBook::new();
    let mut a = order(2, OrderSide::Bid, OrderType::Limit, 0);
    a.price = Amount::new(5, 0).unwrap();
    let mut b = order(1, OrderSide::Bid, OrderType::Limit, 0);
    b.price = Amount::new(5000, 3).unwrap();
    book.place_order(a);
    book.place_order(b);
    assert_eq!(book.peek_best_bid().unwrap().oid, 1);
}

#[test]
fn market_orders_come_first_on_both_sides() {
    let mut book = OrderBook::new();
    book.place_order(order(1, OrderSide::Bid, OrderType::Limit, 100));
    book.place_order(order(2, OrderSide::Bid, OrderType::Market, 1));
    book.place_order(order(3, OrderSide::Bid, OrderType::Stop, 200));
    book.place_order(order(4, OrderSide::Ask, OrderType::Limit, 1));
    book.place_order(order(5, OrderSide::Ask, OrderType::Market, 100));
    book.place_order(order(6, OrderSide::Ask, OrderType::Stop, 2));
    assert_eq!(book.peek_best_bid().unwrap().oid, 2);
    assert_eq!(book.peek_best_ask().unwrap().oid, 5);
    let bids: Vec<u64> = drain_bids(&mut book).iter().map(|o| o.oid).collect();
    assert_eq!(bids, vec![2, 3, 1]);
    let asks: Vec<u64> = drain_asks(&mut book).iter().map(|o| o.oid).collect();
    assert_eq!(asks, vec![5, 4, 6]);
}

#[test]
fn a_full_drain_returns_every_order_of_its_side() {
    let mut book = OrderBook::new();
    let mut bids = 0;
    let mut asks = 0;
    for i in 0..40u64 {
        let side = if i % 3 == 0 { OrderSide::Ask } else { OrderSide::Bid };
        let t = if i % 7 == 0 { OrderType::Market } else { OrderType::Limit };
        let price = ((i * 37) % 11) as i64;
        book.place_order(order(i, side, t, price));
        if side == OrderSide::Bid {
            bids += 1;
        } else {
            asks += 1;
        }
    }
    let drained_bids = drain_bids(&mut book);
    assert_eq!(drained_bids.len(), bids);
    assert!(drained_bids.iter().all(|o| o.side == OrderSide::Bid));
    assert!(book.remove_best_bid().is_none());
    let drained_asks = drain_asks(&mut book);
    assert_eq!(drained_asks.len(), asks);
    assert!(drained_asks.iter().all(|o| o.side == OrderSide::Ask));
    assert!(book.remove_best_ask().is_none());
    for i in 0..40u64 {
        assert!(book.get(i).is_none());
    }
}

#[test]
fn a_drain_never_climbs_in_priority() {
    let mut book = OrderBook::new();
    for i in 0..30u64 {
        let t = match i % 5 {
            0 => OrderType::Market,
            1 => OrderType::Stop,
            _ => OrderType::Limit,
        };
        let price = ((i * 13) % 7) as i64;
        book.place_order(order(i, OrderSide::Bid, t, price));
        book.place_order(order(100 + i, OrderSide::Ask, t, price));
    }
    let bids = drain_bids(&mut book);
    assert_eq!(bids.len(), 30);
    for pair in bids.windows(2) {
        assert!(pair[0].make_sort_key().beats(&pair[1].make_sort_key()));
        assert!(pair[0].make_sort_key() > pair[1].make_sort_key());
    }
    let asks = drain_asks(&mut book);
    assert_eq!(asks.len(), 30);
    for pair in asks.windows(2) {
        assert!(pair[0].make_sort_key().beats(&pair[1].make_sort_key()));
    }
    assert!(book.remove_best_bid().is_none());
    assert!(book.remove_best_ask().is_none());
}

#[test]
fn sides_do_not_disturb_each_other() {
    let mut book = OrderBook::new();
    book.place_order(order(1, OrderSide::Bid, OrderType::Limit, 10));
    book.place_order(order(2, OrderSide::Ask, OrderType::Limit, 11));
    assert_eq!(book.remove_best_bid().unwrap().oid, 1);
    assert!(book.remove_best_bid().is_none());
    assert_eq!(book.peek_best_ask().unwrap().oid, 2);
    assert_eq!(book.remove_order(2).unwrap().oid, 2);
    assert!(book.peek_best_ask().is_none());
}

#[test]
fn an_identifier_can_be_placed_again_once_removed() {
    let mut book = OrderBook::new();
    book.place_order(order(1, OrderSide::Bid, OrderType::Limit, 10));
    let mut taken = book.remove_order(1).unwrap();
    let snapshot = taken;
    taken.balance = Amount::new(3, 0).unwrap();
    taken.rollback_for(&snapshot);
    taken.side = OrderSide::Ask;
    book.place_order(taken);
    assert!(book.peek_best_bid().is_none());
    assert_eq!(book.peek_best_ask().unwrap().oid, 1);
    assert_eq!(book.get(1).unwrap().balance.mantissa(), 10);
}

#[test]
fn clone_is_independent() {
    let mut book = OrderBook::new();
    book.place_order(order(1, OrderSide::Bid, OrderType::Limit, 10));
    book.place_order(order(2, OrderSide::Bid, OrderType::Limit, 12));
    let mut copy = book.clone();
    assert_eq!(copy.remove_best_bid().unwrap().oid, 2);
    assert_eq!(copy.peek_best_bid().unwrap().oid, 1);
    assert_eq!(book.peek_best_bid().unwrap().oid, 2);
    assert!(book.get(2).is_some());
    assert!(copy.get(2).is_none());
}
