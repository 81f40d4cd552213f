use order_registry::codec::DecodeError;
use order_registry::order::Order;
use order_registry::store::{Contract, PairId, RouteMode};

fn payload(account: &str, amount: &str, sell: &str, buy: &str) -> String {
    format!(
        "{{\"account_id\":\"{}\",\"amount\":\"{}\",\"sell_token\":\"{}\",\"buy_token\":\"{}\"}}",
        account, amount, sell, buy
    )
}

fn submit_nine(contract: &mut Contract, mode: RouteMode, sell: &str, buy: &str) {
    let accounts = ["alice.near", "bob.near", "carol.near"];
    let amounts = ["100", "300", "500"];
    for i in 0usize..9usize {
        let account = accounts[i / 3];
        let body = payload(account, amounts[i / 3], sell, buy);
        contract
            .add_order_from_string(account.to_string(), body, mode)
            .unwrap();
    }
}

fn ids_of(entries: &Vec<(u64, Order)>) -> Vec<u64> {
    let mut ids = Vec::new();
    for e in entries {
        ids.push(e.0);
    }
    ids
}

// Three accounts each submit 3 orders for the same pair, routed to the
// account index only: 3 account keys with 3 orders each, ids 1..9 in call
// order, and the pair index stays empty.
#[test]
fn scenario_account_only() {
    let mut contract = Contract::new();
    submit_nine(&mut contract, RouteMode::AccountOnly, "usdt", "wnear");

    assert_eq!(contract.orders_len(), 3);
    assert_eq!(contract.ref_orders_len(), 0);
    assert_eq!(contract.order_nonce(), 9);

    let alice = contract.view_orders(&"alice.near".to_string());
    let bob = contract.view_orders(&"bob.near".to_string());
    let carol = contract.view_orders(&"carol.near".to_string());
    assert_eq!(ids_of(&alice), vec![1, 2, 3]);
    assert_eq!(ids_of(&bob), vec![4, 5, 6]);
    assert_eq!(ids_of(&carol), vec![7, 8, 9]);

    let pair: PairId = ("usdt".to_string(), "wnear".to_string());
    assert_eq!(contract.view_ref_orders(&pair).len(), 0);
}

// The same nine calls routed to the pair index only: the account index stays
// empty and the one pair key holds all nine orders, ids 1..9.
#[test]
fn scenario_pair_only() {
    let mut contract = Contract::new();
    submit_nine(&mut contract, RouteMode::PairOnly, "usdt", "wnear");

    assert_eq!(contract.orders_len(), 0);
    assert_eq!(contract.ref_orders_len(), 1);
    assert_eq!(contract.order_nonce(), 9);

    let pair: PairId = ("usdt".to_string(), "wnear".to_string());
    let book = contract.view_ref_orders(&pair);
    assert_eq!(ids_of(&book), vec![1, 2, 3, 4, 5, 6, 7, 8, 9]);
    assert_eq!(contract.view_orders(&"alice.near".to_string()).len(), 0);
}

// The same nine calls routed to both indices: 3 account keys with 3 orders
// each, one pair key with all 9, and for every id the order stored under the
// account index equals the order stored under the pair index.
#[test]
fn scenario_both() {
    let mut contract = Contract::new();
    submit_nine(&mut contract, RouteMode::Both, "usdt", "wnear");

    assert_eq!(contract.orders_len(), 3);
    assert_eq!(contract.ref_orders_len(), 1);

    let pair: PairId = ("usdt".to_string(), "wnear".to_string());
    let pair_book = contract.view_ref_orders(&pair);
    assert_eq!(ids_of(&pair_book), vec![1, 2, 3, 4, 5, 6, 7, 8, 9]);

    let mut account_entries: Vec<(u64, Order)> = Vec::new();
    for account in ["alice.near", "bob.near", "carol.near"] {
        let book = contract.view_orders(&account.to_string());
        assert_eq!(book.len(), 3);
        for e in book {
            account_entries.push(e);
        }
    }
    for (id, order) in account_entries {
        let matching: Vec<&(u64, Order)> =
            pair_book.iter().filter(|e| e.0 == id).collect();
        assert_eq!(matching.len(), 1);
        assert_eq!(matching[0].1, order);
    }
}

// Orders for a pair and then for its reverse, routed to the pair index: two
// distinct keys, each holding its own nine orders.
#[test]
fn scenario_reverse_pair() {
    let mut contract = Contract::new();
    submit_nine(&mut contract, RouteMode::PairOnly, "usdt", "wnear");
    submit_nine(&mut contract, RouteMode::PairOnly, "wnear", "usdt");

    assert_eq!(contract.ref_orders_len(), 2);

    let forward: PairId = ("usdt".to_string(), "wnear".to_string());
    let reverse: PairId = ("wnear".to_string(), "usdt".to_string());
    let fwd = contract.view_ref_orders(&forward);
    let rev = contract.view_ref_orders(&reverse);
    assert_eq!(ids_of(&fwd), vec![1, 2, 3, 4, 5, 6, 7, 8, 9]);
    assert_eq!(ids_of(&rev), vec![10, 11, 12, 13, 14, 15, 16, 17, 18]);
    for e in &fwd {
        assert_eq!(e.1.sell_token, "usdt");
        assert_eq!(e.1.buy_token, "wnear");
    }
    for e in &rev {
        assert_eq!(e.1.sell_token, "wnear");
        assert_eq!(e.1.buy_token, "usdt");
    }
}

// The id counter counts every successful submission, whatever the mix of
// routing modes.
#[test]
fn counter_counts_all_modes() {
    let mut contract = Contract::new();
    assert_eq!(contract.order_nonce(), 0);
    let modes = [
        RouteMode::AccountOnly,
        RouteMode::PairOnly,
        RouteMode::Both,
        RouteMode::Both,
        RouteMode::AccountOnly,
    ];
    let mut n: u64 = 0;
    for mode in modes {
        let body = payload("alice.near", "1", "usdt", "wnear");
        let id = contract
            .add_order_from_string("alice.near".to_string(), body, mode)
            .unwrap();
        n += 1;
        assert_eq!(id, n);
        assert_eq!(contract.order_nonce(), n);
    }
}

// The stored order is field for field what the payload described: the decode
// really parses the JSON text rather than storing it.
#[test]
fn round_trip_fields() {
    let mut contract = Contract::new();
    let body = payload("dave.near", "250", "usdt", "wnear");
    let id = contract
        .add_order_from_string_3("erin.near".to_string(), body.clone())
        .unwrap();
    assert_eq!(id, 1);

    // Routed under the caller-supplied account, not the payload's.
    let book = contract.view_orders(&"erin.near".to_string());
    assert_eq!(book.len(), 1);
    assert_eq!(book[0].0, 1);
    assert_eq!(book[0].1.account_id, "dave.near");
    assert_eq!(book[0].1.amount, "250");
    assert_eq!(book[0].1.sell_token, "usdt");
    assert_eq!(book[0].1.buy_token, "wnear");
    assert_ne!(book[0].1.account_id, body);

    let pair: PairId = ("usdt".to_string(), "wnear".to_string());
    let pair_book = contract.view_ref_orders(&pair);
    assert_eq!(pair_book.len(), 1);
    assert_eq!(pair_book[0].1, book[0].1);
}

// A payload that is not a well-formed order is rejected and leaves the
// registry untouched — the id counter included.
#[test]
fn decode_error_leaves_state() {
    let mut contract = Contract::new();
    let bad = [
        "not json at all".to_string(),
        "{\"account_id\":\"a\",\"amount\":\"1\",\"sell_token\":\"x\"}".to_string(),
        "{\"account_id\":\"a\",\"amount\":100,\"sell_token\":\"x\",\"buy_token\":\"y\"}"
            .to_string(),
        "[1,2,3]".to_string(),
    ];
    for body in bad {
        let r = contract.add_order_from_string_3("a".to_string(), body);
        assert_eq!(r, Err(DecodeError));
    }
    assert_eq!(contract.order_nonce(), 0);
    assert_eq!(contract.orders_len(), 0);
    assert_eq!(contract.ref_orders_len(), 0);

    // A good payload after the failures gets id 1.
    let ok = contract
        .add_order_from_string_3("a".to_string(), payload("a", "1", "x", "y"))
        .unwrap();
    assert_eq!(ok, 1);
}

// The seeded registry holds three orders for one account, ids 1..3, and a
// later pair-routed submission continues from the seeded counter.
#[test]
fn seeded_registry_state() {
    let mut contract = Contract::new_1();
    assert_eq!(contract.orders_len(), 1);
    assert_eq!(contract.ref_orders_len(), 0);
    assert_eq!(contract.order_nonce(), 3);

    let alice = contract.view_orders(&"alice.near".to_string());
    assert_eq!(ids_of(&alice), vec![1, 2, 3]);
    for e in &alice {
        assert_eq!(e.1.account_id, "alice.near");
        assert_eq!(e.1.amount, "1");
        assert_eq!(e.1.sell_token, "usdt.near");
        assert_eq!(e.1.buy_token, "wnear.near");
    }

    let body = payload("alice.near", "100", "usdt.near", "wnear.near");
    let id = contract
        .add_order_from_string_2("alice.near".to_string(), body)
        .unwrap();
    assert_eq!(id, 4);
    let pair: PairId = ("usdt.near".to_string(), "wnear.near".to_string());
    assert_eq!(ids_of(&contract.view_ref_orders(&pair)), vec![4]);
    // The account index is untouched by pair-only routing.
    assert_eq!(contract.view_orders(&"alice.near".to_string()).len(), 3);
}

// Submitting an already decoded order routes it exactly like a payload
// submission with the same fields.
#[test]
fn submit_decoded_order() {
    let mut contract = Contract::new();
    let order = Order {
        account_id: "alice.near".to_string(),
        amount: "42".to_string(),
        sell_token: "usdt".to_string(),
        buy_token: "wnear".to_string(),
    };
    let id = contract.submit_order("alice.near".to_string(), order, RouteMode::Both);
    assert_eq!(id, 1);
    assert_eq!(contract.order_nonce(), 1);

    let book = contract.view_orders(&"alice.near".to_string());
    assert_eq!(book.len(), 1);
    assert_eq!(book[0].1.amount, "42");

    let pair: PairId = ("usdt".to_string(), "wnear".to_string());
    let pair_book = contract.view_ref_orders(&pair);
    assert_eq!(pair_book.len(), 1);
    assert_eq!(pair_book[0].1, book[0].1);
}

// The book primitive keeps entries sorted wherever the id lands, and a
// repeated id replaces the entry it already has.
#[test]
fn book_insert_sorted_and_replacing() {
    let mk = |amount: &str| Order {
        account_id: "a".to_string(),
        amount: amount.to_string(),
        sell_token: "x".to_string(),
        buy_token: "y".to_string(),
    };
    let mut book = order_registry::book::Book::new();
    book.insert(5, mk("five"));
    book.insert(1, mk("one"));
    book.insert(3, mk("three"));
    book.insert(3, mk("three again"));
    let entries = book.into_entries();
    assert_eq!(ids_of(&entries), vec![1, 3, 5]);
    assert_eq!(entries[0].1.amount, "one");
    assert_eq!(entries[1].1.amount, "three again");
    assert_eq!(entries[2].1.amount, "five");
}

// An account that never received an order yields the empty sequence, and so
// does a pair that never received one.
#[test]
fn absent_keys_are_empty() {
    let contract = Contract::new();
    assert_eq!(contract.view_orders(&"nobody.near".to_string()).len(), 0);
    let pair: PairId = ("usdt".to_string(), "wnear".to_string());
    assert_eq!(contract.view_ref_orders(&pair).len(), 0);
}
