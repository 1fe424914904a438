//! A transfer of an amount from one party to another.

use vstd::prelude::*;

verus! {

#[derive(Debug)]
pub struct Transaction {
    pub from: String,
    pub to: String,
    pub amount: u64,
}

impl View for Transaction {
    type V = (Seq<char>, Seq<char>, u64);

    open spec fn view(&self) -> (Seq<char>, Seq<char>, u64) {
        (self.from@, self.to@, self.amount)
    }
}

impl Clone for Transaction {
    fn clone(&self) -> (t: Transaction)
        ensures
            t == *self,
    {
        Transaction { from: self.from.clone(), to: self.to.clone(), amount: self.amount }
    }
}

impl PartialEq for Transaction {
    fn eq(&self, other: &Transaction) -> (same: bool) {
        self.from == other.from && self.to == other.to && self.amount == other.amount
    }
}

impl vstd::std_specs::cmp::PartialEqSpecImpl for Transaction {
    open spec fn obeys_eq_spec() -> bool {
        true
    }

    open spec fn eq_spec(&self, other: &Transaction) -> bool {
        self@ == other@
    }
}

} // verus!
