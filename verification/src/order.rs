use vstd::prelude::*;

verus! {

/// The model of an [`Order`]: each field as the sequence of characters it
/// holds. Two orders are the same order exactly when their models are equal.
pub ghost struct OrderModel {
    /// The account identifier carried inside the order record.
    pub account_id: Seq<char>,
    /// The amount, as the canonical decimal string it was submitted with.
    pub amount: Seq<char>,
    /// The asset sold.
    pub sell_token: Seq<char>,
    /// The asset bought.
    pub buy_token: Seq<char>,
}

/// A resting trade order, immutable once stored.
///
/// All four fields are opaque identifier strings. The amount is the canonical
/// string form of an arbitrary-precision decimal; the registry never computes
/// with it, it only stores it and hands it back.
#[derive(Debug, PartialEq)]
pub struct Order {
    /// The account identifier carried inside the order record. It is
    /// independent of the account a submission call routes the order to.
    pub account_id: String,
    /// The amount, as the canonical decimal string it was submitted with.
    pub amount: String,
    /// The asset sold.
    pub sell_token: String,
    /// The asset bought.
    pub buy_token: String,
}

impl View for Order {
    type V = OrderModel;

    open spec fn view(&self) -> OrderModel {
        OrderModel {
            account_id: self.account_id@,
            amount: self.amount@,
            sell_token: self.sell_token@,
            buy_token: self.buy_token@,
        }
    }
}

impl Clone for Order {
    fn clone(&self) -> (r: Self)
        ensures
            r == *self,
    {
        Order {
            account_id: self.account_id.clone(),
            amount: self.amount.clone(),
            sell_token: self.sell_token.clone(),
            buy_token: self.buy_token.clone(),
        }
    }
}

} // verus!
