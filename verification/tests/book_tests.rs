use l3replay::book::{
    Book, ChangeEvent, DoneEvent, DoneReason, MatchEvent, NewOrderEvent, OpenEvent, OrderPrice,
    Sequence, Side, Time,
};
use l3replay::price::Price;

fn px(s: &str) -> Price {
    Price::parse(s).unwrap()
}

fn new_event(order_id: &str, side: Side, px: OrderPrice, orig_size: Price) -> NewOrderEvent {
    NewOrderEvent {
        seq: Sequence(0),
        time: Time(0),
        order_id: order_id.to_string(),
        side,
        px,
        orig_size,
        open_size: orig_size,
    }
}

fn open_event(order_id: &str, remaining_size: Price) -> OpenEvent {
    OpenEvent {
        seq: Sequence(0),
        time: Time(0),
        order_id: order_id.to_string(),
        remaining_size,
    }
}

fn match_event(
    maker_order_id: &str,
    taker_order_id: &str,
    side: Side,
    price: Price,
    size: Price,
) -> MatchEvent {
    MatchEvent {
        seq: Sequence(0),
        time: Time(0),
        maker_order_id: maker_order_id.to_string(),
        taker_order_id: taker_order_id.to_string(),
        side,
        price,
        size,
    }
}

fn change_event(
    order_id: &str,
    price: OrderPrice,
    old_size_or_funds: Price,
    new_size_or_funds: Price,
) -> ChangeEvent {
    ChangeEvent {
        seq: Sequence(0),
        time: Time(0),
        order_id: order_id.to_string(),
        price,
        old_size_or_funds,
        new_size_or_funds,
    }
}

fn done_event(order_id: &str, reason: DoneReason) -> DoneEvent {
    DoneEvent {
        seq: Sequence(0),
        time: Time(0),
        order_id: order_id.to_string(),
        reason,
    }
}

#[test]
fn total_size() {
    let mut book = Book::new();
    book.on_add(&new_event("order1", Side::Bid, OrderPrice::Limit(px("10.00")), px("100.")));
    assert_eq!(px("100."), book.price_level(Side::Bid, px("10.00")).unwrap().total_size());
    book.on_add(&new_event("order2", Side::Bid, OrderPrice::Limit(px("10.00")), px("90.")));
    book.on_add(&new_event("order3", Side::Ask, OrderPrice::Limit(px("10.01")), px("90.")));
    assert_eq!(px("190."), book.price_level(Side::Bid, px("10.00")).unwrap().total_size());
    assert_eq!(px("90."), book.price_level(Side::Ask, px("10.01")).unwrap().total_size());
}

#[test]
fn open_size() {
    let mut book = Book::new();
    book.on_add(&new_event("order1", Side::Bid, OrderPrice::Limit(px("10.00")), px("100.")));
    assert_eq!(Price::zero(), book.price_level(Side::Bid, px("10.00")).unwrap().open_size());
    book.on_add(&new_event("order2", Side::Bid, OrderPrice::Limit(px("10.00")), px("90.")));
    assert_eq!(Price::zero(), book.price_level(Side::Bid, px("10.00")).unwrap().open_size());
    book.on_open(&open_event("order2", px("90.")));
    assert_eq!(px("90."), book.price_level(Side::Bid, px("10.00")).unwrap().open_size());
}

#[test]
fn test_match() {
    let mut book = Book::new();
    book.on_add(&new_event("order1", Side::Bid, OrderPrice::Limit(px("10.00")), px("100.")));
    book.on_open(&open_event("order1", px("100.")));
    book.on_add(&new_event("order2", Side::Ask, OrderPrice::Limit(px("9.90")), px("40.")));
    book.on_match(&match_event("order1", "order2", Side::Bid, px("9.99"), px("40.")));
    assert_eq!(px("60."), book.price_level(Side::Bid, px("10.00")).unwrap().open_size());
}

#[test]
fn market_match() {
    let mut book = Book::new();
    book.on_add(&new_event("order1", Side::Bid, OrderPrice::Limit(px("10.00")), px("100.")));
    book.on_open(&open_event("order1", px("100.")));
    book.on_add(&new_event("order2", Side::Ask, OrderPrice::Market, px("40.")));
    book.on_match(&match_event("order1", "order2", Side::Bid, px("9.99"), px("40.")));
    assert_eq!(px("60."), book.price_level(Side::Bid, px("10.00")).unwrap().open_size());
}

#[test]
fn change() {
    let mut book = Book::new();
    book.on_add(&new_event("order1", Side::Ask, OrderPrice::Limit(px("10.00")), px("100.")));
    book.on_open(&open_event("order1", px("100.")));
    book.on_change(&change_event("order1", OrderPrice::Limit(px("10.00")), px("100."), px("40.")));
    assert_eq!(px("40."), book.price_level(Side::Ask, px("10.00")).unwrap().open_size());
}

#[test]
fn interacting_orders() {
    let mut book = Book::new();
    book.on_add(&new_event("order3", Side::Ask, OrderPrice::Limit(px("9.99")), px("50.")));
    book.on_add(&new_event("order1", Side::Bid, OrderPrice::Limit(px("10.00")), px("100.")));
    book.on_add(&new_event("order2", Side::Bid, OrderPrice::Limit(px("10.00")), px("90.")));

    book.on_open(&open_event("order3", px("50.")));
    book.on_open(&open_event("order1", px("100.")));
    assert_eq!(px("50."), book.price_level(Side::Ask, px("9.99")).unwrap().open_size());
    assert_eq!(px("100."), book.price_level(Side::Bid, px("10.00")).unwrap().open_size());

    // orders 2 and 3 interact via a hidden limit on order 2
    book.on_match(&match_event("order3", "order2", Side::Ask, px("9.99"), px("50.")));
    assert_eq!(px("0."), book.price_level(Side::Ask, px("9.99")).unwrap().open_size());
    book.on_done(&done_event("order3", DoneReason::Filled));
    assert_eq!(px("0."), book.price_level(Side::Ask, px("9.99")).unwrap().open_size());

    book.on_open(&open_event("order2", px("40.")));
    assert_eq!(px("140."), book.price_level(Side::Bid, px("10.00")).unwrap().open_size());

    // order 2 cancels its remaining qty
    book.on_done(&done_event("order2", DoneReason::Canceled));
    assert_eq!(px("100."), book.price_level(Side::Bid, px("10.00")).unwrap().open_size());
}

#[test]
fn filled_order_has_zero_open() {
    let mut book = Book::new();
    book.on_add(&new_event("order1", Side::Bid, OrderPrice::Limit(px("10.00")), px("40.")));
    book.on_open(&open_event("order1", px("40.")));
    book.on_match(&match_event("order1", "order9", Side::Bid, px("10.00"), px("40.")));
    book.on_done(&done_event("order1", DoneReason::Filled));
    let order = book.order(&"order1".to_string()).unwrap();
    assert_eq!(Price::zero(), order.open_size());
    assert!(!order.is_booked());
    assert_eq!(Price::zero(), book.price_level(Side::Bid, px("10.00")).unwrap().open_size());
}

#[test]
fn market_level_is_hidden() {
    let mut book = Book::new();
    book.on_add(&new_event("order1", Side::Ask, OrderPrice::Market, px("40.")));
    assert!(book.price_level(Side::Ask, px("40.")).is_none());
    assert!(book.price_level(Side::Ask, Price::zero()).is_none());
    let order = book.order(&"order1".to_string()).unwrap();
    assert_eq!(OrderPrice::Market, order.px());
    assert_eq!(Side::Ask, order.side());
    assert_eq!(px("40."), order.orig_size());
}

#[test]
fn unknown_order_is_absent() {
    let book = Book::new();
    assert!(book.order(&"nobody".to_string()).is_none());
    assert!(book.price_level(Side::Bid, px("1.")).is_none());
}

#[test]
fn level_open_equals_sum_of_booked_orders() {
    let mut book = Book::new();
    let level = OrderPrice::Limit(px("10.00"));
    book.on_add(&new_event("order1", Side::Bid, level, px("100.")));
    book.on_add(&new_event("order2", Side::Bid, level, px("90.")));
    book.on_open(&open_event("order1", px("100.")));
    book.on_open(&open_event("order2", px("90.")));
    let o1 = book.order(&"order1".to_string()).unwrap().open_size();
    let o2 = book.order(&"order2".to_string()).unwrap().open_size();
    assert_eq!(
        o1.add(o2),
        book.price_level(Side::Bid, px("10.00")).unwrap().open_size()
    );
    book.on_match(&match_event("order1", "taker", Side::Bid, px("10.00"), px("25.")));
    let o1 = book.order(&"order1".to_string()).unwrap().open_size();
    let o2 = book.order(&"order2".to_string()).unwrap().open_size();
    assert_eq!(
        o1.add(o2),
        book.price_level(Side::Bid, px("10.00")).unwrap().open_size()
    );
}

#[test]
fn total_size_never_decreases_and_sizes_stay_non_negative() {
    let mut book = Book::new();
    let level = OrderPrice::Limit(px("5.00"));
    book.on_add(&new_event("order1", Side::Ask, level, px("10.")));
    let t0 = book.price_level(Side::Ask, px("5.00")).unwrap().total_size();
    book.on_open(&open_event("order1", px("10.")));
    let t1 = book.price_level(Side::Ask, px("5.00")).unwrap().total_size();
    assert!(t0 <= t1);
    book.on_match(&match_event("order1", "taker", Side::Ask, px("5.00"), px("4.")));
    let t2 = book.price_level(Side::Ask, px("5.00")).unwrap().total_size();
    assert!(t1 <= t2);
    book.on_done(&done_event("order1", DoneReason::Canceled));
    let lvl = book.price_level(Side::Ask, px("5.00")).unwrap();
    assert!(t2 <= lvl.total_size());
    assert!(Price::zero() <= lvl.open_size());
    assert!(Price::zero() <= book.order(&"order1".to_string()).unwrap().open_size());
}

#[test]
fn market_sorts_before_any_limit() {
    assert!(OrderPrice::Market < OrderPrice::Limit(px("0.00000001")));
    assert!(OrderPrice::Limit(px("1.")) < OrderPrice::Limit(px("2.")));
}
