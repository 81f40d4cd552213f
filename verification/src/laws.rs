use vstd::prelude::*;
use crate::book::{
    EntryModel, has_entry, insert_entry, lemma_insert_entry_append, lemma_insert_entry_props,
    sorted_by_id,
};
use crate::index::book_or_empty;
use crate::order::OrderModel;
use crate::store::{
    ContractModel, RouteMode, lemma_submit_step_inv, model_inv, route_to_account, route_to_pair,
    submit_step,
};

verus! {

/// One submission as the model sees it: the account the call names, the
/// decoded order, and the routing mode.
pub ghost struct CallModel {
    /// The account the call routes to (used by AccountOnly and Both).
    pub account: Seq<char>,
    /// The decoded order the call carries.
    pub order: OrderModel,
    /// Which index or indices the call populates.
    pub mode: RouteMode,
}

/// The registry after the calls of `calls` run in order from state `m`.
pub open spec fn run(m: ContractModel, calls: Seq<CallModel>) -> ContractModel
    decreases calls.len(),
{
    if calls.len() == 0 {
        m
    } else {
        let c = calls.last();
        submit_step(run(m, calls.drop_last()), c.account, c.order, c.mode)
    }
}

/// After any sequence of N submissions the id counter stands at its old value
/// plus N, whatever mix of routing modes the calls used.
pub proof fn lemma_counter_counts_calls(m: ContractModel, calls: Seq<CallModel>)
    requires
        m.order_nonce + calls.len() <= u64::MAX,
    ensures
        run(m, calls).order_nonce == m.order_nonce + calls.len(),
    decreases calls.len(),
{
    if calls.len() > 0 {
        lemma_counter_counts_calls(m, calls.drop_last());
    }
}

/// Every sequence of submissions keeps the registry invariant.
pub proof fn lemma_run_inv(m: ContractModel, calls: Seq<CallModel>)
    requires
        model_inv(m),
        m.order_nonce + calls.len() <= u64::MAX,
    ensures
        model_inv(run(m, calls)),
    decreases calls.len(),
{
    if calls.len() > 0 {
        let prev = run(m, calls.drop_last());
        let c = calls.last();
        lemma_run_inv(m, calls.drop_last());
        lemma_counter_counts_calls(m, calls.drop_last());
        lemma_submit_step_inv(prev, c.account, c.order, c.mode);
    }
}

/// No order id is present twice within the account index: an id pins down
/// both the key it is stored under and its position in that key's book.
pub proof fn lemma_no_id_twice_account(
    m: ContractModel,
    k1: Seq<char>,
    i1: int,
    k2: Seq<char>,
    i2: int,
)
    requires
        model_inv(m),
        m.orders.contains_key(k1),
        m.orders.contains_key(k2),
        0 <= i1 < m.orders[k1].len(),
        0 <= i2 < m.orders[k2].len(),
        m.orders[k1][i1].0 == m.orders[k2][i2].0,
    ensures
        k1 == k2,
        i1 == i2,
{
}

/// No order id is present twice within the pair index: an id pins down both
/// the pair it is stored under and its position in that pair's book.
pub proof fn lemma_no_id_twice_pair(
    m: ContractModel,
    p1: (Seq<char>, Seq<char>),
    i1: int,
    p2: (Seq<char>, Seq<char>),
    i2: int,
)
    requires
        model_inv(m),
        m.ref_orders.contains_key(p1),
        m.ref_orders.contains_key(p2),
        0 <= i1 < m.ref_orders[p1].len(),
        0 <= i2 < m.ref_orders[p2].len(),
        m.ref_orders[p1][i1].0 == m.ref_orders[p2][i2].0,
    ensures
        p1 == p2,
        i1 == i2,
{
}

/// The orders that a sequence of calls routes to account `a`: the calls with
/// mode AccountOnly or Both that name `a`, in call order, each under the id
/// its call allocated.
pub open spec fn account_routed(base: u64, calls: Seq<CallModel>, a: Seq<char>) -> Seq<
    EntryModel,
>
    decreases calls.len(),
{
    if calls.len() == 0 {
        Seq::empty()
    } else {
        let prefix = account_routed(base, calls.drop_last(), a);
        let c = calls.last();
        if route_to_account(c.mode) && c.account == a {
            prefix.push(((base + calls.len()) as u64, c.order))
        } else {
            prefix
        }
    }
}

/// The orders that a sequence of calls routes to pair `p`: the calls with
/// mode PairOnly or Both whose order trades exactly that ordered pair, in
/// call order, each under the id its call allocated. The reversed pair is a
/// different `p` and collects its own calls.
pub open spec fn pair_routed(
    base: u64,
    calls: Seq<CallModel>,
    p: (Seq<char>, Seq<char>),
) -> Seq<EntryModel>
    decreases calls.len(),
{
    if calls.len() == 0 {
        Seq::empty()
    } else {
        let prefix = pair_routed(base, calls.drop_last(), p);
        let c = calls.last();
        if route_to_pair(c.mode) && (c.order.sell_token, c.order.buy_token) == p {
            prefix.push(((base + calls.len()) as u64, c.order))
        } else {
            prefix
        }
    }
}

/// Starting from a registry whose account index is empty, the book of account
/// `a` after any sequence of submissions holds exactly the orders routed to
/// `a` via AccountOnly or Both, sorted strictly ascending by id — and is
/// empty when `a` never received any.
pub proof fn lemma_account_orders_exact(m: ContractModel, calls: Seq<CallModel>, a: Seq<char>)
    requires
        model_inv(m),
        m.orders == Map::<Seq<char>, Seq<EntryModel>>::empty(),
        m.order_nonce + calls.len() <= u64::MAX,
    ensures
        book_or_empty(run(m, calls).orders, a) == account_routed(m.order_nonce, calls, a),
        sorted_by_id(book_or_empty(run(m, calls).orders, a)),
    decreases calls.len(),
{
    lemma_run_inv(m, calls);
    if calls.len() == 0 {
        assert(!run(m, calls).orders.contains_key(a));
    } else {
        let prev = run(m, calls.drop_last());
        let c = calls.last();
        lemma_account_orders_exact(m, calls.drop_last(), a);
        lemma_run_inv(m, calls.drop_last());
        lemma_counter_counts_calls(m, calls.drop_last());
        let id = (prev.order_nonce + 1) as u64;
        let before = book_or_empty(prev.orders, a);
        if route_to_account(c.mode) && c.account == a {
            // The call writes `(id, c.order)` into `a`'s book; every id
            // already there is at most the previous counter, so the write is
            // an append.
            assert(sorted_by_id(before));
            assert forall|i: int| 0 <= i < before.len() implies (#[trigger] before[i]).0
                < id by {
                assert(prev.orders.contains_key(a));
                assert(1 <= prev.orders[a][i].0 <= prev.order_nonce);
            }
            lemma_insert_entry_append(before, id, c.order);
            assert(book_or_empty(run(m, calls).orders, a) == before.push((id, c.order)));
        } else if route_to_account(c.mode) {
            // Routed to some other account: `a`'s book is untouched.
            assert(book_or_empty(run(m, calls).orders, a) == before);
        } else {
            assert(book_or_empty(run(m, calls).orders, a) == before);
        }
    }
}

/// No call routed to `a` means nothing was collected for `a`.
proof fn lemma_account_routed_none(base: u64, calls: Seq<CallModel>, a: Seq<char>)
    requires
        forall|i: int| #![trigger calls[i]]
            0 <= i < calls.len() ==> !(route_to_account(calls[i].mode) && calls[i].account
                == a),
    ensures
        account_routed(base, calls, a) == Seq::<EntryModel>::empty(),
    decreases calls.len(),
{
    if calls.len() > 0 {
        assert(forall|i: int|
            0 <= i < calls.drop_last().len() ==> #[trigger] calls.drop_last()[i] == calls[i]);
        lemma_account_routed_none(base, calls.drop_last(), a);
    }
}

/// An account that no submission routed to ends with the empty book: its
/// projection is the empty sequence.
pub proof fn lemma_untouched_account_empty(m: ContractModel, calls: Seq<CallModel>, a: Seq<
    char,
>)
    requires
        model_inv(m),
        m.orders == Map::<Seq<char>, Seq<EntryModel>>::empty(),
        m.order_nonce + calls.len() <= u64::MAX,
        forall|i: int| #![trigger calls[i]]
            0 <= i < calls.len() ==> !(route_to_account(calls[i].mode) && calls[i].account
                == a),
    ensures
        book_or_empty(run(m, calls).orders, a) == Seq::<EntryModel>::empty(),
{
    lemma_account_orders_exact(m, calls, a);
    lemma_account_routed_none(m.order_nonce, calls, a);
}

/// Starting from a registry whose pair index is empty, the book of pair `p`
/// after any sequence of submissions holds exactly the orders routed to `p`
/// via PairOnly or Both, sorted strictly ascending by id. A pair and its
/// reverse are disjoint keys: each collects only its own calls.
pub proof fn lemma_pair_orders_exact(
    m: ContractModel,
    calls: Seq<CallModel>,
    p: (Seq<char>, Seq<char>),
)
    requires
        model_inv(m),
        m.ref_orders == Map::<(Seq<char>, Seq<char>), Seq<EntryModel>>::empty(),
        m.order_nonce + calls.len() <= u64::MAX,
    ensures
        book_or_empty(run(m, calls).ref_orders, p) == pair_routed(m.order_nonce, calls, p),
        sorted_by_id(book_or_empty(run(m, calls).ref_orders, p)),
    decreases calls.len(),
{
    lemma_run_inv(m, calls);
    if calls.len() == 0 {
        assert(!run(m, calls).ref_orders.contains_key(p));
    } else {
        let prev = run(m, calls.drop_last());
        let c = calls.last();
        lemma_pair_orders_exact(m, calls.drop_last(), p);
        lemma_run_inv(m, calls.drop_last());
        lemma_counter_counts_calls(m, calls.drop_last());
        let id = (prev.order_nonce + 1) as u64;
        let before = book_or_empty(prev.ref_orders, p);
        if route_to_pair(c.mode) && (c.order.sell_token, c.order.buy_token) == p {
            assert(sorted_by_id(before));
            assert forall|i: int| 0 <= i < before.len() implies (#[trigger] before[i]).0
                < id by {
                assert(prev.ref_orders.contains_key(p));
                assert(1 <= prev.ref_orders[p][i].0 <= prev.order_nonce);
            }
            lemma_insert_entry_append(before, id, c.order);
            assert(book_or_empty(run(m, calls).ref_orders, p) == before.push((id, c.order)));
        } else if route_to_pair(c.mode) {
            assert(book_or_empty(run(m, calls).ref_orders, p) == before);
        } else {
            assert(book_or_empty(run(m, calls).ref_orders, p) == before);
        }
    }
}

/// Round trip: the entry a submission writes is retrieved exactly as it was
/// submitted — under the account key for AccountOnly and Both, under the
/// order's own pair key for PairOnly and Both, with the id the call
/// allocated, field for field; and that id holds no other order there.
pub proof fn lemma_round_trip(
    m: ContractModel,
    account: Seq<char>,
    o: OrderModel,
    mode: RouteMode,
)
    requires
        model_inv(m),
        m.order_nonce < u64::MAX,
    ensures
        route_to_account(mode) ==> has_entry(
            book_or_empty(submit_step(m, account, o, mode).orders, account),
            (m.order_nonce + 1) as u64,
            o,
        ),
        route_to_pair(mode) ==> has_entry(
            book_or_empty(
                submit_step(m, account, o, mode).ref_orders,
                (o.sell_token, o.buy_token),
            ),
            (m.order_nonce + 1) as u64,
            o,
        ),
        forall|o2: OrderModel|
            route_to_account(mode) && #[trigger] has_entry(
                book_or_empty(submit_step(m, account, o, mode).orders, account),
                (m.order_nonce + 1) as u64,
                o2,
            ) ==> o2 == o,
        forall|o2: OrderModel|
            route_to_pair(mode) && #[trigger] has_entry(
                book_or_empty(
                    submit_step(m, account, o, mode).ref_orders,
                    (o.sell_token, o.buy_token),
                ),
                (m.order_nonce + 1) as u64,
                o2,
            ) ==> o2 == o,
{
    let id = (m.order_nonce + 1) as u64;
    if route_to_account(mode) {
        let b0 = book_or_empty(m.orders, account);
        assert(sorted_by_id(b0));
        lemma_insert_entry_props(b0, id, o);
        assert(has_entry(insert_entry(b0, id, o), id, o));
    }
    if route_to_pair(mode) {
        let b0 = book_or_empty(m.ref_orders, (o.sell_token, o.buy_token));
        assert(sorted_by_id(b0));
        lemma_insert_entry_props(b0, id, o);
        assert(has_entry(insert_entry(b0, id, o), id, o));
    }
}

} // verus!
