//! The records the engine keeps: client accounts, stored transactions and
//! the incoming transaction rows.

use vstd::prelude::*;
use crate::amount::MAX_UNITS;

verus! {

/// Whether an amount (in ten-thousandths) is one a balance may hold.
pub open spec fn in_range(x: int) -> bool {
    -MAX_UNITS <= x <= MAX_UNITS
}

/// Which kind of stored transaction a dispute refers to.
#[derive(Debug, Clone, Copy, PartialEq, Eq, Structural)]
pub enum TransactionKind {
    Deposit,
    Withdrawal,
}

/// A successful deposit or withdrawal, kept so that it can be disputed.
#[derive(Debug, Clone, Copy, PartialEq, Eq, Structural)]
pub struct TransactionRecord {
    pub kind: TransactionKind,
    pub client_id: u16,
    /// In ten-thousandths.
    pub amount: i128,
    pub under_dispute: bool,
}

/// The balances of an account, as mathematical integers (ten-thousandths).
pub struct Account {
    pub id: u16,
    pub available: int,
    pub held: int,
    pub total: int,
    pub locked: bool,
}

impl Account {
    /// A fresh, unlocked account with nothing in it.
    pub open spec fn empty(id: u16) -> Account {
        Account { id, available: 0, held: 0, total: 0, locked: false }
    }

    /// All three balances are ones a `Client` can hold.
    pub open spec fn in_range(self) -> bool {
        in_range(self.available) && in_range(self.held) && in_range(self.total)
    }

    /// The account after a dispute of a transaction of the given kind and
    /// amount: a disputed deposit moves its amount from available to held;
    /// a disputed withdrawal puts its amount back into available and also
    /// holds it, raising the total.
    pub open spec fn disputed(self, kind: TransactionKind, amount: int) -> Account {
        match kind {
            TransactionKind::Deposit => Account {
                available: self.available - amount,
                held: self.held + amount,
                ..self
            },
            TransactionKind::Withdrawal => Account {
                available: self.available + amount,
                held: self.held + amount,
                total: self.total + amount,
                ..self
            },
        }
    }

    /// The account after a resolve of a disputed transaction: exactly what
    /// the dispute did, taken back.
    pub open spec fn resolved(self, kind: TransactionKind, amount: int) -> Account {
        match kind {
            TransactionKind::Deposit => Account {
                available: self.available + amount,
                held: self.held - amount,
                ..self
            },
            TransactionKind::Withdrawal => Account {
                available: self.available - amount,
                held: self.held - amount,
                total: self.total - amount,
                ..self
            },
        }
    }

    /// The account after a chargeback of a disputed amount: the held
    /// amount leaves the account for good, and the account is locked.
    pub open spec fn charged_back(self, amount: int) -> Account {
        Account { held: self.held - amount, total: self.total - amount, locked: true, ..self }
    }
}

/// A client account; balances are in ten-thousandths.
#[derive(Debug, Clone, Copy, PartialEq, Eq, Structural)]
pub struct Client {
    pub id: u16,
    pub available: i128,
    pub held: i128,
    pub total: i128,
    pub locked: bool,
}

impl View for Client {
    type V = Account;

    open spec fn view(&self) -> Account {
        Account {
            id: self.id,
            available: self.available as int,
            held: self.held as int,
            total: self.total as int,
            locked: self.locked,
        }
    }
}

impl Client {
    /// A new, unlocked client with all balances zero.
    pub fn new(id: u16) -> (c: Client)
        ensures
            c@ == Account::empty(id),
            c.id == id && c.available == 0 && c.held == 0 && c.total == 0 && !c.locked,
    {
        Client { id, available: 0, held: 0, total: 0, locked: false }
    }

    /// Applies a dispute of a transaction of the given kind and amount.
    pub fn apply_dispute(&mut self, kind: TransactionKind, amount: i128)
        requires
            old(self)@.in_range(),
            in_range(amount as int),
            old(self)@.disputed(kind, amount as int).in_range(),
        ensures
            final(self)@ == old(self)@.disputed(kind, amount as int),
            final(self).held == old(self).held + amount,
            final(self).id == old(self).id && final(self).locked == old(self).locked,
            kind == TransactionKind::Deposit ==> final(self).available == old(self).available
                - amount && final(self).total == old(self).total,
            kind == TransactionKind::Withdrawal ==> final(self).available == old(self).available
                + amount && final(self).total == old(self).total + amount,
    {
        match kind {
            TransactionKind::Deposit => {
                self.available = self.available - amount;
                self.held = self.held + amount;
            },
            TransactionKind::Withdrawal => {
                self.available = self.available + amount;
                self.held = self.held + amount;
                self.total = self.total + amount;
            },
        }
    }

    /// Applies a resolve of a disputed transaction of the given kind and
    /// amount.
    pub fn apply_resolve(&mut self, kind: TransactionKind, amount: i128)
        requires
            old(self)@.in_range(),
            in_range(amount as int),
            old(self)@.resolved(kind, amount as int).in_range(),
        ensures
            final(self)@ == old(self)@.resolved(kind, amount as int),
            final(self).held == old(self).held - amount,
            final(self).id == old(self).id && final(self).locked == old(self).locked,
            kind == TransactionKind::Deposit ==> final(self).available == old(self).available
                + amount && final(self).total == old(self).total,
            kind == TransactionKind::Withdrawal ==> final(self).available == old(self).available
                - amount && final(self).total == old(self).total - amount,
    {
        match kind {
            TransactionKind::Deposit => {
                self.available = self.available + amount;
                self.held = self.held - amount;
            },
            TransactionKind::Withdrawal => {
                self.available = self.available - amount;
                self.held = self.held - amount;
                self.total = self.total - amount;
            },
        }
    }
}

/// One incoming transaction: its type as written (`deposit`, `withdrawal`,
/// `dispute`, `resolve` or `chargeback`), the client, the transaction id
/// and, for deposits and withdrawals, the amount in ten-thousandths.
#[derive(Debug)]
pub struct TransactionRow {
    pub tx_type: String,
    pub client: u16,
    pub tx: u32,
    pub amount: Option<i128>,
}

} // verus!
