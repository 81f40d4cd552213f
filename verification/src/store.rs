use vstd::prelude::*;
use crate::book::{
    Book, EntryModel, entries_model, has_entry, ids_bounded, insert_entry,
    lemma_insert_entry_props, sorted_by_id,
};
use crate::codec::{DecodeError, decode_order, json_order_of};
use crate::index::{AccountIndex, PairIndex, book_or_empty, pair_key};
use crate::order::{Order, OrderModel};

pub use crate::index::PairId;

verus! {

/// Which index (or both) a submission populates.
#[derive(Clone, Copy, Debug)]
pub enum RouteMode {
    /// Only the account index receives the order.
    AccountOnly,
    /// Only the pair index receives the order.
    PairOnly,
    /// Both indices receive the order, under one shared id.
    Both,
}

/// The mode routes the order into the account index.
pub open spec fn route_to_account(mode: RouteMode) -> bool {
    mode is AccountOnly || mode is Both
}

/// The mode routes the order into the pair index.
pub open spec fn route_to_pair(mode: RouteMode) -> bool {
    mode is PairOnly || mode is Both
}

/// The model of the whole registry: the id counter and the two indices, each
/// a map from key to the sorted book the key holds.
pub ghost struct ContractModel {
    /// The id most recently allocated; 0 before any submission.
    pub order_nonce: u64,
    /// The index keyed by the account a submission named.
    pub orders: Map<Seq<char>, Seq<EntryModel>>,
    /// The index keyed by the order's (sell asset, buy asset) pair.
    pub ref_orders: Map<(Seq<char>, Seq<char>), Seq<EntryModel>>,
}

/// Every book of the index is sorted and all its ids lie in `1 ..= nonce`.
pub open spec fn index_books_wf<K>(m: Map<K, Seq<EntryModel>>, nonce: u64) -> bool {
    forall|k: K| #[trigger]
        m.contains_key(k) ==> sorted_by_id(m[k]) && ids_bounded(m[k], nonce)
}

/// No id appears twice within the index, neither inside one book nor across
/// two books of different keys.
pub open spec fn index_ids_unique<K>(m: Map<K, Seq<EntryModel>>) -> bool {
    forall|k1: K, k2: K, i1: int, i2: int|
        #![trigger m[k1][i1], m[k2][i2]]
        (m.contains_key(k1) && m.contains_key(k2) && 0 <= i1 < m[k1].len() && 0 <= i2
            < m[k2].len() && m[k1][i1].0 == m[k2][i2].0) ==> (k1 == k2 && i1 == i2)
}

/// What always holds of a reachable registry state.
pub open spec fn model_inv(m: ContractModel) -> bool {
    &&& index_books_wf(m.orders, m.order_nonce)
    &&& index_books_wf(m.ref_orders, m.order_nonce)
    &&& index_ids_unique(m.orders)
    &&& index_ids_unique(m.ref_orders)
}

/// What one submission of the decoded order `o`, named for account `account`,
/// does to the registry: the counter advances by one, and the entry
/// `(counter, o)` is written into the index or indices the mode selects — the
/// account index under `account`, the pair index under the order's own
/// (sell asset, buy asset) pair.
pub open spec fn submit_step(
    m: ContractModel,
    account: Seq<char>,
    o: OrderModel,
    mode: RouteMode,
) -> ContractModel {
    let id = (m.order_nonce + 1) as u64;
    ContractModel {
        order_nonce: id,
        orders: if route_to_account(mode) {
            m.orders.insert(account, insert_entry(book_or_empty(m.orders, account), id, o))
        } else {
            m.orders
        },
        ref_orders: if route_to_pair(mode) {
            m.ref_orders.insert(
                (o.sell_token, o.buy_token),
                insert_entry(book_or_empty(m.ref_orders, (o.sell_token, o.buy_token)), id, o),
            )
        } else {
            m.ref_orders
        },
    }
}

/// A well-formed index stays well-formed when the bound on its ids grows.
proof fn lemma_index_bound_grow<K>(m: Map<K, Seq<EntryModel>>, nonce: u64, bound2: u64)
    requires
        index_books_wf(m, nonce),
        nonce <= bound2,
    ensures
        index_books_wf(m, bound2),
{
    assert forall|k: K| #[trigger]
        m.contains_key(k) implies sorted_by_id(m[k]) && ids_bounded(m[k], bound2) by {
        assert(ids_bounded(m[k], nonce));
        assert forall|i: int| 0 <= i < m[k].len() implies 1 <= (#[trigger] m[k][i]).0
            <= bound2 by {
            assert(1 <= m[k][i].0 <= nonce);
        }
    }
}

/// Writing a fresh id `nonce + 1` into one key's book keeps the index
/// well-formed under the advanced bound, and keeps all its ids unique.
proof fn lemma_index_step_inv<K>(m: Map<K, Seq<EntryModel>>, k: K, id: u64, nonce: u64, o: OrderModel)
    requires
        index_books_wf(m, nonce),
        index_ids_unique(m),
        nonce < u64::MAX,
        id == nonce + 1,
    ensures
        index_books_wf(m.insert(k, insert_entry(book_or_empty(m, k), id, o)), id),
        index_ids_unique(m.insert(k, insert_entry(book_or_empty(m, k), id, o))),
{
    let b0 = book_or_empty(m, k);
    let b1 = insert_entry(b0, id, o);
    let m1 = m.insert(k, b1);
    assert(sorted_by_id(b0));
    lemma_insert_entry_props(b0, id, o);
    // Every entry of the new book is the new entry or one of the old book.
    assert forall|i: int| 0 <= i < b1.len() implies 1 <= (#[trigger] b1[i]).0 <= id && (
    b1[i].0 != id ==> has_entry(b0, b1[i].0, b1[i].1)) by {
        assert(b1[i] == (b1[i].0, b1[i].1));
        assert(has_entry(b1, b1[i].0, b1[i].1));
        if !(b1[i].0 == id && b1[i].1 == o) {
            assert(has_entry(b0, b1[i].0, b1[i].1));
            let j = choose|j: int| 0 <= j < b0.len() && b0[j] == (b1[i].0, b1[i].1);
            assert(1 <= b0[j].0 <= nonce);
        }
    }
    assert forall|kk: K| #[trigger]
        m1.contains_key(kk) implies sorted_by_id(m1[kk]) && ids_bounded(m1[kk], id) by {
        if kk == k {
            assert(m1[kk] == b1);
        } else {
            assert(m.contains_key(kk));
            assert(m1[kk] == m[kk]);
            assert(ids_bounded(m[kk], nonce));
            assert forall|i: int| 0 <= i < m[kk].len() implies 1 <= (#[trigger] m[kk][i]).0
                <= id by {
                assert(1 <= m[kk][i].0 <= nonce);
            }
        }
    }
    assert forall|k1: K, k2: K, i1: int, i2: int|
        (m1.contains_key(k1) && m1.contains_key(k2) && 0 <= i1 < m1[k1].len() && 0 <= i2
            < m1[k2].len() && (#[trigger] m1[k1][i1]).0 == (#[trigger] m1[k2][i2]).0) implies (
    k1 == k2 && i1 == i2) by {
        // An entry of an untouched book keeps an old id, at most `nonce`.
        if k1 != k {
            assert(m1[k1] == m[k1]);
            assert(ids_bounded(m[k1], nonce));
            assert(1 <= m1[k1][i1].0 <= nonce);
        }
        if k2 != k {
            assert(m1[k2] == m[k2]);
            assert(ids_bounded(m[k2], nonce));
            assert(1 <= m1[k2][i2].0 <= nonce);
        }
        if k1 == k && k2 == k {
            // Within one sorted book ids determine the position.
            if i1 < i2 {
                assert(b1[i1].0 < b1[i2].0);
            }
            if i2 < i1 {
                assert(b1[i2].0 < b1[i1].0);
            }
        } else if k1 == k {
            // The shared id is at most `nonce`, so the entry in the new book
            // is an old entry; old entries never share an id across keys.
            assert(b1[i1].0 == m1[k2][i2].0);
            assert(b1[i1].0 != id);
            assert(has_entry(b0, b1[i1].0, b1[i1].1));
            assert(m.contains_key(k)) by {
                if !m.contains_key(k) {
                    let j = choose|j: int| 0 <= j < b0.len() && b0[j] == (b1[i1].0, b1[i1].1);
                }
            }
            let j = choose|j: int| 0 <= j < b0.len() && b0[j] == (b1[i1].0, b1[i1].1);
            assert(m[k][j].0 == m[k2][i2].0);
            assert(false);
        } else if k2 == k {
            assert(b1[i2].0 == m1[k1][i1].0);
            assert(b1[i2].0 != id);
            assert(has_entry(b0, b1[i2].0, b1[i2].1));
            assert(m.contains_key(k)) by {
                if !m.contains_key(k) {
                    let j = choose|j: int| 0 <= j < b0.len() && b0[j] == (b1[i2].0, b1[i2].1);
                }
            }
            let j = choose|j: int| 0 <= j < b0.len() && b0[j] == (b1[i2].0, b1[i2].1);
            assert(m[k][j].0 == m[k1][i1].0);
            assert(false);
        } else {
            assert(m[k1][i1].0 == m[k2][i2].0);
        }
    }
}

/// One submission preserves the registry invariant and advances the counter
/// by exactly one.
pub proof fn lemma_submit_step_inv(
    m: ContractModel,
    account: Seq<char>,
    o: OrderModel,
    mode: RouteMode,
)
    requires
        model_inv(m),
        m.order_nonce < u64::MAX,
    ensures
        model_inv(submit_step(m, account, o, mode)),
        submit_step(m, account, o, mode).order_nonce == m.order_nonce + 1,
{
    let id = (m.order_nonce + 1) as u64;
    if route_to_account(mode) {
        lemma_index_step_inv(m.orders, account, id, m.order_nonce, o);
    } else {
        lemma_index_bound_grow(m.orders, m.order_nonce, id);
    }
    if route_to_pair(mode) {
        lemma_index_step_inv(m.ref_orders, (o.sell_token, o.buy_token), id, m.order_nonce, o);
    } else {
        lemma_index_bound_grow(m.ref_orders, m.order_nonce, id);
    }
}

/// The order the seeded registry of [`Contract::new_1`] holds three times.
pub open spec fn seeded_order() -> OrderModel {
    OrderModel {
        account_id: "alice.near"@,
        amount: "1"@,
        sell_token: "usdt.near"@,
        buy_token: "wnear.near"@,
    }
}

/// The book the seeded registry holds under its one account key.
pub open spec fn seeded_book() -> Seq<EntryModel> {
    seq![(1u64, seeded_order()), (2u64, seeded_order()), (3u64, seeded_order())]
}

/// The registry: the id counter and the two indices. Constructed once, with
/// the counter at 0 and both indices empty; orders are only ever added.
pub struct Contract {
    order_nonce: u64,
    orders: AccountIndex,
    ref_orders: PairIndex,
}

impl View for Contract {
    type V = ContractModel;

    closed spec fn view(&self) -> ContractModel {
        ContractModel {
            order_nonce: self.order_nonce,
            orders: self.orders@,
            ref_orders: self.ref_orders@,
        }
    }
}

impl Contract {
    /// The registry is well formed: both indices are, and the model invariant
    /// holds of its model.
    pub closed spec fn wf(self) -> bool {
        &&& self.orders.wf()
        &&& self.ref_orders.wf()
        &&& model_inv(self@)
    }

    /// A well-formed registry satisfies the model invariant.
    pub proof fn lemma_wf_model(self)
        requires
            self.wf(),
        ensures
            model_inv(self@),
    {
    }

    /// A fresh registry: counter at 0, both indices empty.
    pub fn new() -> (r: Self)
        ensures
            r.wf(),
            r@.order_nonce == 0,
            r@.orders == Map::<Seq<char>, Seq<EntryModel>>::empty(),
            r@.ref_orders == Map::<(Seq<char>, Seq<char>), Seq<EntryModel>>::empty(),
    {
        Contract { order_nonce: 0, orders: AccountIndex::new(), ref_orders: PairIndex::new() }
    }

    /// A registry seeded with three orders already held by one account: the
    /// counter stands at 3 and the account index holds the seeded book, while
    /// the pair index is empty.
    pub fn new_1() -> (r: Self)
        ensures
            r.wf(),
            r@.order_nonce == 3,
            r@.orders == Map::<Seq<char>, Seq<EntryModel>>::empty().insert(
                "alice.near"@,
                seeded_book(),
            ),
            r@.ref_orders == Map::<(Seq<char>, Seq<char>), Seq<EntryModel>>::empty(),
    {
        let order = Order {
            account_id: "alice.near".to_owned(),
            amount: "1".to_owned(),
            sell_token: "usdt.near".to_owned(),
            buy_token: "wnear.near".to_owned(),
        };
        proof {
            assert(order@ == seeded_order());
        }
        let mut book = Book::new();
        book.insert(1, order.clone());
        proof {
            assert(book@ =~= seq![(1u64, seeded_order())]);
        }
        let ghost b1 = book@;
        book.insert(2, order.clone());
        proof {
            crate::book::lemma_insert_entry_append(b1, 2, seeded_order());
            assert(book@ =~= seq![(1u64, seeded_order()), (2u64, seeded_order())]);
        }
        let ghost b2 = book@;
        book.insert(3, order);
        proof {
            crate::book::lemma_insert_entry_append(b2, 3, seeded_order());
            assert(book@ =~= seeded_book());
        }
        let mut orders = AccountIndex::new();
        let key = "alice.near".to_owned();
        orders.put_book(&key, book);
        let r = Contract { order_nonce: 3, orders, ref_orders: PairIndex::new() };
        proof {
            let m = r@;
            assert(m.orders == Map::<Seq<char>, Seq<EntryModel>>::empty().insert(
                "alice.near"@,
                seeded_book(),
            ));
            assert forall|k: Seq<char>| #[trigger]
                m.orders.contains_key(k) implies sorted_by_id(m.orders[k]) && ids_bounded(
                m.orders[k], 3) by {
                assert(k == "alice.near"@);
                assert(m.orders[k] == seeded_book());
            }
            assert forall|k1: Seq<char>, k2: Seq<char>, i1: int, i2: int|
                (m.orders.contains_key(k1) && m.orders.contains_key(k2) && 0 <= i1 < m.orders[
                    k1].len() && 0 <= i2 < m.orders[k2].len() && (#[trigger] m.orders[k1][i1]).0
                    == (#[trigger] m.orders[k2][i2]).0) implies (k1 == k2 && i1 == i2) by {
                assert(k1 == "alice.near"@ && k2 == "alice.near"@);
                assert(sorted_by_id(seeded_book()));
                if i1 < i2 {
                    assert(seeded_book()[i1].0 < seeded_book()[i2].0);
                }
                if i2 < i1 {
                    assert(seeded_book()[i2].0 < seeded_book()[i1].0);
                }
            }
            assert(model_inv(m));
        }
        r
    }

    /// The id most recently allocated.
    pub fn order_nonce(&self) -> (r: u64)
        ensures
            r == self@.order_nonce,
    {
        self.order_nonce
    }

    /// How many accounts hold at least one order.
    pub fn orders_len(&self) -> (r: usize)
        requires
            self.wf(),
        ensures
            r == self@.orders.dom().len(),
    {
        self.orders.len()
    }

    /// How many pairs hold at least one order.
    pub fn ref_orders_len(&self) -> (r: usize)
        requires
            self.wf(),
        ensures
            r == self@.ref_orders.dom().len(),
    {
        self.ref_orders.len()
    }

    /// The account index write primitive: fetches the key's current book (the
    /// empty book if the key is absent), inserts into the copy, and writes
    /// the copy back. The write-back is what makes the update visible: the
    /// index yields books by copy, never by reference.
    fn insert_order(&mut self, account_id: &String, order: Order, order_id: u64)
        requires
            old(self).orders.wf(),
        ensures
            final(self).orders.wf(),
            final(self).orders@ == old(self).orders@.insert(
                account_id@,
                insert_entry(book_or_empty(old(self).orders@, account_id@), order_id, order@),
            ),
            final(self).order_nonce == old(self).order_nonce,
            final(self).ref_orders == old(self).ref_orders,
    {
        let mut book = self.orders.get_book(account_id);
        book.insert(order_id, order);
        self.orders.put_book(account_id, book);
    }

    /// The pair index write primitive: the same fetch, copy, insert and
    /// write-back cycle, keyed by the ordered pair.
    fn insert_ref_order(&mut self, pair_id: &PairId, order: Order, order_id: u64)
        requires
            old(self).ref_orders.wf(),
        ensures
            final(self).ref_orders.wf(),
            final(self).ref_orders@ == old(self).ref_orders@.insert(
                pair_key(*pair_id),
                insert_entry(
                    book_or_empty(old(self).ref_orders@, pair_key(*pair_id)),
                    order_id,
                    order@,
                ),
            ),
            final(self).order_nonce == old(self).order_nonce,
            final(self).orders == old(self).orders,
    {
        let mut book = self.ref_orders.get_book(pair_id);
        book.insert(order_id, order);
        self.ref_orders.put_book(pair_id, book);
    }

    /// Allocates the next id and routes the already decoded `order` into the
    /// index or indices `mode` selects. Returns the allocated id.
    pub fn submit_order(&mut self, account_id: String, order: Order, mode: RouteMode) -> (id:
        u64)
        requires
            old(self).wf(),
            old(self)@.order_nonce < u64::MAX,
        ensures
            final(self).wf(),
            final(self)@ == submit_step(old(self)@, account_id@, order@, mode),
            id == final(self)@.order_nonce,
    {
        proof {
            lemma_submit_step_inv(old(self)@, account_id@, order@, mode);
        }
        self.order_nonce = self.order_nonce + 1;
        let id = self.order_nonce;
        let to_account = match mode {
            RouteMode::AccountOnly => true,
            RouteMode::PairOnly => false,
            RouteMode::Both => true,
        };
        let to_pair = match mode {
            RouteMode::AccountOnly => false,
            RouteMode::PairOnly => true,
            RouteMode::Both => true,
        };
        proof {
            assert(to_account == route_to_account(mode));
            assert(to_pair == route_to_pair(mode));
        }
        if to_account {
            self.insert_order(&account_id, order.clone(), id);
        }
        if to_pair {
            let pair: PairId = (order.sell_token.clone(), order.buy_token.clone());
            self.insert_ref_order(&pair, order, id);
        }
        proof {
            assert(self@ == submit_step(old(self)@, account_id@, order@, mode));
        }
        id
    }

    /// Decodes the payload, and only then allocates an id and routes the
    /// order as `mode` selects. A payload that is not a well-formed order is
    /// rejected with [`DecodeError`] and the registry is left unchanged, the
    /// counter included.
    pub fn add_order_from_string(
        &mut self,
        account_id: String,
        order: String,
        mode: RouteMode,
    ) -> (r: Result<u64, DecodeError>)
        requires
            old(self).wf(),
            old(self)@.order_nonce < u64::MAX,
        ensures
            final(self).wf(),
            (json_order_of(order@) matches Some(o) ==> final(self)@ == submit_step(
                old(self)@, account_id@, o, mode) && r == Ok::<u64, DecodeError>(
                final(self)@.order_nonce)),
            (json_order_of(order@) is None ==> r == Err::<u64, DecodeError>(DecodeError)
                && *final(self) == *old(self)),
    {
        match decode_order(&order) {
            Some(decoded) => Ok(self.submit_order(account_id, decoded, mode)),
            None => Err(DecodeError),
        }
    }

    /// Submits a payload routed to the account index only.
    pub fn add_order_from_string_1(&mut self, account_id: String, order: String) -> (r: Result<
        u64,
        DecodeError,
    >)
        requires
            old(self).wf(),
            old(self)@.order_nonce < u64::MAX,
        ensures
            final(self).wf(),
            (json_order_of(order@) matches Some(o) ==> final(self)@ == submit_step(
                old(self)@, account_id@, o, RouteMode::AccountOnly) && r == Ok::<
                u64,
                DecodeError,
            >(final(self)@.order_nonce)),
            (json_order_of(order@) is None ==> r == Err::<u64, DecodeError>(DecodeError)
                && *final(self) == *old(self)),
    {
        self.add_order_from_string(account_id, order, RouteMode::AccountOnly)
    }

    /// Submits a payload routed to the pair index only. The account parameter
    /// is accepted but takes no part in this routing.
    pub fn add_order_from_string_2(&mut self, account_id: String, order: String) -> (r: Result<
        u64,
        DecodeError,
    >)
        requires
            old(self).wf(),
            old(self)@.order_nonce < u64::MAX,
        ensures
            final(self).wf(),
            (json_order_of(order@) matches Some(o) ==> final(self)@ == submit_step(
                old(self)@, account_id@, o, RouteMode::PairOnly) && r == Ok::<
                u64,
                DecodeError,
            >(final(self)@.order_nonce)),
            (json_order_of(order@) is None ==> r == Err::<u64, DecodeError>(DecodeError)
                && *final(self) == *old(self)),
    {
        self.add_order_from_string(account_id, order, RouteMode::PairOnly)
    }

    /// Submits a payload routed to both indices under one shared id.
    pub fn add_order_from_string_3(&mut self, account_id: String, order: String) -> (r: Result<
        u64,
        DecodeError,
    >)
        requires
            old(self).wf(),
            old(self)@.order_nonce < u64::MAX,
        ensures
            final(self).wf(),
            (json_order_of(order@) matches Some(o) ==> final(self)@ == submit_step(
                old(self)@, account_id@, o, RouteMode::Both) && r == Ok::<u64, DecodeError>(
                final(self)@.order_nonce)),
            (json_order_of(order@) is None ==> r == Err::<u64, DecodeError>(DecodeError)
                && *final(self) == *old(self)),
    {
        self.add_order_from_string(account_id, order, RouteMode::Both)
    }

    /// The orders of one account, sorted ascending by id; empty for an
    /// account that never received any.
    pub fn view_orders(&self, account_id: &String) -> (r: Vec<(u64, Order)>)
        requires
            self.wf(),
        ensures
            entries_model(r@) == book_or_empty(self@.orders, account_id@),
            sorted_by_id(entries_model(r@)),
    {
        let book = self.orders.get_book(account_id);
        book.into_entries()
    }

    /// The orders of one pair, sorted ascending by id. An absent pair yields
    /// the empty sequence, the same policy as the account lookup: both
    /// lookups treat a key never written to as legitimately empty.
    pub fn view_ref_orders(&self, pair_id: &PairId) -> (r: Vec<(u64, Order)>)
        requires
            self.wf(),
        ensures
            entries_model(r@) == book_or_empty(self@.ref_orders, pair_key(*pair_id)),
            sorted_by_id(entries_model(r@)),
    {
        let book = self.ref_orders.get_book(pair_id);
        book.into_entries()
    }
}

} // verus!
