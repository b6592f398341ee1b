//! One client account: its balances and the table of its disputed events.
use crate::amount::{amount_text, bool_text, decimal, push_amount, push_bool, push_decimal};
use std::collections::BTreeMap;
use vstd::prelude::*;

verus! {

/// What an account holds, as mathematical values.
pub struct AccountView {
    /// The disputed events of the account: tx id to amount.
    pub held: Map<u32, i64>,
    pub available: int,
    pub total: int,
    pub locked: bool,
}

/// The sum of the amounts in a table of disputed events.
pub open spec fn held_sum(m: Map<u32, i64>) -> int
    decreases m.len(),
    via held_sum_decreases
{
    if m.dom().finite() && m.len() > 0 {
        let k = m.dom().choose();
        m[k] + held_sum(m.remove(k))
    } else {
        0
    }
}

#[via_fn]
proof fn held_sum_decreases(m: Map<u32, i64>) {
    if m.dom().finite() && m.len() > 0 {
        let k = m.dom().choose();
        assert(m.dom().contains(k)) by {
            if !m.dom().contains(k) {
                assert(m.dom() =~= Set::empty());
            }
        }
        assert(m.remove(k).len() < m.len());
    }
}

/// Whether an account's total is its available funds plus the sum of what is
/// held in dispute.
pub open spec fn balanced(a: AccountView) -> bool {
    a.held.dom().finite() && a.total == a.available + held_sum(a.held)
}

/// A new, unlocked account holding `amount`, with nothing in dispute.
pub open spec fn opened(amount: i64) -> AccountView {
    AccountView { held: Map::empty(), available: amount as int, total: amount as int, locked: false }
}

/// The statement row of an account: id, available, held, total, locked.
pub open spec fn row_text(id: u16, a: AccountView) -> Seq<char> {
    decimal(id as nat) + ", "@ + amount_text(a.available) + ", "@ + amount_text(held_sum(a.held))
        + ", "@ + amount_text(a.total) + ", "@ + bool_text(a.locked)
}

/// Removing one entry takes its amount out of the sum.
pub proof fn lemma_held_sum_remove(m: Map<u32, i64>, k: u32)
    requires
        m.dom().finite(),
        m.contains_key(k),
    ensures
        held_sum(m) == m[k] + held_sum(m.remove(k)),
    decreases m.len(),
{
    let c = m.dom().choose();
    assert(m.dom().contains(c));
    if c != k {
        lemma_held_sum_remove(m.remove(c), k);
        lemma_held_sum_remove(m.remove(k), c);
        assert(m.remove(c).remove(k) =~= m.remove(k).remove(c));
    }
}

/// Adding an entry for a new tx id adds its amount to the sum.
pub proof fn lemma_held_sum_insert(m: Map<u32, i64>, k: u32, v: i64)
    requires
        m.dom().finite(),
        !m.contains_key(k),
    ensures
        held_sum(m.insert(k, v)) == v + held_sum(m),
{
    lemma_held_sum_remove(m.insert(k, v), k);
    assert(m.insert(k, v).remove(k) =~= m);
}

/// An account's balances and the events of it that are under dispute.
#[derive(Debug)]
pub struct ClientData {
    held: BTreeMap<u32, i64>,
    available: i64,
    total: i64,
    locked: bool,
}

impl View for ClientData {
    type V = AccountView;

    closed spec fn view(&self) -> AccountView {
        AccountView {
            held: self.held@,
            available: self.available as int,
            total: self.total as int,
            locked: self.locked,
        }
    }
}

impl ClientData {
    /// A new, unlocked account holding `amount`.
    pub fn new(amount: i64) -> (r: ClientData)
        ensures
            r@ == opened(amount),
    {
        ClientData { held: BTreeMap::new(), available: amount, total: amount, locked: false }
    }

    pub fn available(&self) -> (r: i64)
        ensures
            r == self@.available,
    {
        self.available
    }

    pub fn total(&self) -> (r: i64)
        ensures
            r == self@.total,
    {
        self.total
    }

    pub fn locked(&self) -> (r: bool)
        ensures
            r == self@.locked,
    {
        self.locked
    }

    /// The sum of the amounts under dispute.
    pub fn held(&self) -> (r: i128)
        requires
            balanced(self@),
        ensures
            r == held_sum(self@.held),
    {
        self.total as i128 - self.available as i128
    }

    /// The amount of the disputed event `tx`, if it is under dispute here.
    pub fn disputed(&self, tx: u32) -> (r: Option<i64>)
        ensures
            match r {
                Some(v) => self@.held.contains_key(tx) && self@.held[tx] == v,
                None => !self@.held.contains_key(tx),
            },
    {
        match self.held.get(&tx) {
            Some(v) => Some(*v),
            None => None,
        }
    }

    /// How many events of the account are under dispute.
    pub fn disputed_count(&self) -> (r: usize)
        ensures
            r == self@.held.len(),
    {
        self.held.len()
    }

    /// Adds `amount` to the available funds and the total, unless the account
    /// is locked or a balance would leave the range of `i64`. Returns whether
    /// it did.
    pub(crate) fn credit(&mut self, amount: i64) -> (r: bool)
        ensures
            r == (!old(self)@.locked && i64::MIN <= old(self)@.available + amount <= i64::MAX
                && i64::MIN <= old(self)@.total + amount <= i64::MAX),
            final(self)@ == if r {
                AccountView {
                    available: old(self)@.available + amount,
                    total: old(self)@.total + amount,
                    ..old(self)@
                }
            } else {
                old(self)@
            },
    {
        let available = self.available as i128 + amount as i128;
        let total = self.total as i128 + amount as i128;
        if self.locked || available < i64::MIN as i128 || available > i64::MAX as i128 || total
            < i64::MIN as i128 || total > i64::MAX as i128 {
            return false;
        }
        self.available = available as i64;
        self.total = total as i64;
        true
    }

    /// Puts the event `tx` of amount `amount` under dispute: its amount leaves
    /// the available funds. Does nothing if `tx` is already under dispute here
    /// or the available funds would leave the range of `i64`. Returns whether
    /// it did.
    pub(crate) fn hold(&mut self, tx: u32, amount: i64) -> (r: bool)
        ensures
            r == (!old(self)@.held.contains_key(tx) && i64::MIN <= old(self)@.available - amount
                <= i64::MAX),
            final(self)@ == if r {
                AccountView {
                    held: old(self)@.held.insert(tx, amount),
                    available: old(self)@.available - amount,
                    ..old(self)@
                }
            } else {
                old(self)@
            },
    {
        let available = self.available as i128 - amount as i128;
        if self.held.contains_key(&tx) || available < i64::MIN as i128 || available
            > i64::MAX as i128 {
            return false;
        }
        self.available = available as i64;
        self.held.insert(tx, amount);
        true
    }

    /// Ends the dispute on `tx`, if there is one: its amount returns to the
    /// available funds, unless they would leave the range of `i64`.
    pub(crate) fn release(&mut self, tx: u32)
        ensures
            final(self)@ == if old(self)@.held.contains_key(tx) && i64::MIN <= old(
                self,
            )@.available + old(self)@.held[tx] <= i64::MAX {
                AccountView {
                    held: old(self)@.held.remove(tx),
                    available: old(self)@.available + old(self)@.held[tx],
                    ..old(self)@
                }
            } else {
                old(self)@
            },
    {
        let amount = match self.held.get(&tx) {
            Some(v) => *v,
            None => return ,
        };
        let available = self.available as i128 + amount as i128;
        if available < i64::MIN as i128 || available > i64::MAX as i128 {
            return ;
        }
        self.held.remove(&tx);
        self.available = available as i64;
    }

    /// Reverses the disputed event `tx`, if there is one: its amount leaves
    /// the total and the account locks, unless the total would leave the
    /// range of `i64`.
    pub(crate) fn reverse(&mut self, tx: u32)
        ensures
            final(self)@ == if old(self)@.held.contains_key(tx) && i64::MIN <= old(self)@.total
                - old(self)@.held[tx] <= i64::MAX {
                AccountView {
                    held: old(self)@.held.remove(tx),
                    total: old(self)@.total - old(self)@.held[tx],
                    locked: true,
                    ..old(self)@
                }
            } else {
                old(self)@
            },
    {
        let amount = match self.held.get(&tx) {
            Some(v) => *v,
            None => return ,
        };
        let total = self.total as i128 - amount as i128;
        if total < i64::MIN as i128 || total > i64::MAX as i128 {
            return ;
        }
        self.held.remove(&tx);
        self.total = total as i64;
        self.locked = true;
    }

    /// Appends the statement row of this account under the id `id`.
    pub(crate) fn push_row(&self, s: &mut String, id: u16)
        requires
            balanced(self@),
        ensures
            final(s)@ == old(s)@ + row_text(id, self@),
    {
        let ghost sep = ", "@;
        let ghost a = amount_text(self.available as int);
        let ghost h = amount_text(held_sum(self@.held));
        let ghost t = amount_text(self.total as int);
        push_decimal(s, id as u128);
        s.append(", ");
        push_amount(s, self.available as i128);
        s.append(", ");
        push_amount(s, self.total as i128 - self.available as i128);
        s.append(", ");
        push_amount(s, self.total as i128);
        s.append(", ");
        push_bool(s, self.locked);
        assert(s@ =~= old(s)@ + decimal(id as nat) + sep + a + sep + h + sep + t + sep + bool_text(
            self.locked,
        ));
    }
}

} // verus!
