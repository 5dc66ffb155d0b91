//! The payments engine: client accounts and the transactions that may
//! still be disputed, updated one transaction row at a time.

use vstd::prelude::*;
use std::collections::HashMap;
use vstd::std_specs::iter::IteratorSpec;
use crate::amount::MAX_UNITS;
use crate::ids::{sorted_ids, strictly_ascending};
use crate::laws::{covered_withdrawal_debits_and_records_amount, deposit_credits_and_records_amount};
use crate::models::{in_range, Account, Client, TransactionKind, TransactionRecord, TransactionRow};

verus! {

broadcast use vstd::std_specs::hash::group_hash_axioms;

/// What the engine holds, as mathematical maps: the accounts by client id,
/// and the stored deposits and withdrawals by transaction id.
pub struct Ledger {
    pub clients: Map<u16, Account>,
    pub transactions: Map<u32, TransactionRecord>,
}

impl Ledger {
    /// An engine that has seen nothing yet.
    pub open spec fn empty() -> Ledger {
        Ledger { clients: Map::empty(), transactions: Map::empty() }
    }

    /// Whether the client has an account and it is locked.
    pub open spec fn is_locked(self, client: u16) -> bool {
        self.clients.contains_key(client) && self.clients[client].locked
    }

    /// The client's account, or a fresh one where there is none yet.
    pub open spec fn account(self, client: u16) -> Account {
        if self.clients.contains_key(client) {
            self.clients[client]
        } else {
            Account::empty(client)
        }
    }

    /// Every account is filed under its own id.
    pub open spec fn consistent(self) -> bool {
        forall|c: u16| #[trigger] self.clients.contains_key(c) ==> self.clients[c].id == c
    }

    /// Every account's total is its available plus its held funds.
    pub open spec fn balanced(self) -> bool {
        forall|c: u16| #[trigger]
            self.clients.contains_key(c) ==> self.clients[c].total == self.clients[c].available
                + self.clients[c].held
    }

    /// Every balance and every stored amount is one the engine can hold.
    pub open spec fn bounded(self) -> bool {
        &&& forall|c: u16| #[trigger] self.clients.contains_key(c) ==> self.clients[c].in_range()
        &&& forall|t: u32| #[trigger]
            self.transactions.contains_key(t) ==> in_range(self.transactions[t].amount as int)
    }

    /// A deposit: credits available and total, creating the account where
    /// needed, and stores the transaction (replacing one with the same id).
    /// A locked account is left alone.
    pub open spec fn deposit(self, client: u16, tx: u32, amount: i128) -> Ledger {
        if self.is_locked(client) {
            self
        } else {
            let a = self.account(client);
            Ledger {
                clients: self.clients.insert(
                    client,
                    Account { available: a.available + amount, total: a.total + amount, ..a },
                ),
                transactions: self.transactions.insert(
                    tx,
                    TransactionRecord {
                        kind: TransactionKind::Deposit,
                        client_id: client,
                        amount,
                        under_dispute: false,
                    },
                ),
            }
        }
    }

    /// A withdrawal: the account is created where needed; with enough
    /// available funds, available and total are debited and the transaction
    /// is stored, otherwise nothing else changes. A locked account is left
    /// alone.
    pub open spec fn withdrawal(self, client: u16, tx: u32, amount: i128) -> Ledger {
        if self.is_locked(client) {
            self
        } else {
            let a = self.account(client);
            if a.available < amount {
                Ledger { clients: self.clients.insert(client, a), ..self }
            } else {
                Ledger {
                    clients: self.clients.insert(
                        client,
                        Account { available: a.available - amount, total: a.total - amount, ..a },
                    ),
                    transactions: self.transactions.insert(
                        tx,
                        TransactionRecord {
                            kind: TransactionKind::Withdrawal,
                            client_id: client,
                            amount,
                            under_dispute: false,
                        },
                    ),
                }
            }
        }
    }

    /// The stored transaction `tx`, where it belongs to `client` and its
    /// dispute state is `under_dispute`.
    pub open spec fn lookup(self, client: u16, tx: u32, under_dispute: bool) -> Option<
        TransactionRecord,
    > {
        if self.transactions.contains_key(tx) && self.transactions[tx].client_id == client
            && self.transactions[tx].under_dispute == under_dispute {
            Some(self.transactions[tx])
        } else {
            None
        }
    }

    /// The stored transaction with its dispute flag set as given.
    pub open spec fn flag(self, tx: u32, under_dispute: bool) -> Map<u32, TransactionRecord> {
        self.transactions.insert(
            tx,
            TransactionRecord { under_dispute, ..self.transactions[tx] },
        )
    }

    /// A dispute of a stored, undisputed transaction of the client: its
    /// amount is held (see `Account::disputed`) and it is marked disputed.
    /// Anything else is ignored.
    pub open spec fn dispute(self, client: u16, tx: u32) -> Ledger {
        if self.is_locked(client) {
            self
        } else {
            match self.lookup(client, tx, false) {
                None => self,
                Some(r) => if self.clients.contains_key(client) {
                    Ledger {
                        clients: self.clients.insert(
                            client,
                            self.clients[client].disputed(r.kind, r.amount as int),
                        ),
                        transactions: self.flag(tx, true),
                    }
                } else {
                    self
                },
            }
        }
    }

    /// A resolve of a disputed transaction of the client: the dispute is
    /// undone (see `Account::resolved`) and the transaction is no longer
    /// disputed. Anything else is ignored.
    pub open spec fn resolve(self, client: u16, tx: u32) -> Ledger {
        if self.is_locked(client) {
            self
        } else {
            match self.lookup(client, tx, true) {
                None => self,
                Some(r) => if self.clients.contains_key(client) {
                    Ledger {
                        clients: self.clients.insert(
                            client,
                            self.clients[client].resolved(r.kind, r.amount as int),
                        ),
                        transactions: self.flag(tx, false),
                    }
                } else {
                    self
                },
            }
        }
    }

    /// A chargeback of a disputed transaction of the client: the held
    /// amount leaves held and total, the account is locked and the
    /// transaction is no longer disputed. Anything else is ignored.
    pub open spec fn chargeback(self, client: u16, tx: u32) -> Ledger {
        if self.is_locked(client) {
            self
        } else {
            match self.lookup(client, tx, true) {
                None => self,
                Some(r) => if self.clients.contains_key(client) {
                    Ledger {
                        clients: self.clients.insert(
                            client,
                            self.clients[client].charged_back(r.amount as int),
                        ),
                        transactions: self.flag(tx, false),
                    }
                } else {
                    self
                },
            }
        }
    }

    /// One transaction row: rows for a locked account, deposits and
    /// withdrawals without an amount, and rows of an unknown type are
    /// ignored.
    pub open spec fn process(self, row: TransactionRow) -> Ledger {
        if self.is_locked(row.client) {
            self
        } else if row.tx_type@ == "deposit"@ {
            match row.amount {
                Some(a) => self.deposit(row.client, row.tx, a),
                None => self,
            }
        } else if row.tx_type@ == "withdrawal"@ {
            match row.amount {
                Some(a) => self.withdrawal(row.client, row.tx, a),
                None => self,
            }
        } else if row.tx_type@ == "dispute"@ {
            self.dispute(row.client, row.tx)
        } else if row.tx_type@ == "resolve"@ {
            self.resolve(row.client, row.tx)
        } else if row.tx_type@ == "chargeback"@ {
            self.chargeback(row.client, row.tx)
        } else {
            self
        }
    }
}

/// The engine: accounts by client id and the successful deposits and
/// withdrawals by transaction id.
pub struct PaymentEngine {
    clients: HashMap<u16, Client>,
    transactions: HashMap<u32, TransactionRecord>,
}

impl View for PaymentEngine {
    type V = Ledger;

    closed spec fn view(&self) -> Ledger {
        Ledger {
            clients: self.clients@.map_values(|c: Client| c@),
            transactions: self.transactions@,
        }
    }
}

impl PaymentEngine {
    /// The engine's invariant: its accounts are consistent and all its
    /// amounts are within range.
    pub open spec fn wf(&self) -> bool {
        self@.consistent() && self@.bounded()
    }

    /// An engine with no clients and no transactions.
    pub fn new() -> (e: PaymentEngine)
        ensures
            e@ == Ledger::empty(),
            e.wf(),
    {
        let e = PaymentEngine { clients: HashMap::new(), transactions: HashMap::new() };
        assert(e@.clients == Map::<u16, Account>::empty());
        e
    }

    /// The stored transaction with the given id, if any.
    pub fn transaction(&self, tx_id: u32) -> (r: Option<TransactionRecord>)
        ensures
            r == (if self@.transactions.contains_key(tx_id) {
                Some(self@.transactions[tx_id])
            } else {
                None
            }),
    {
        match self.transactions.get(&tx_id) {
            Some(t) => Some(*t),
            None => None,
        }
    }

    fn is_locked(&self, client_id: u16) -> (r: bool)
        ensures
            r == self@.is_locked(client_id),
    {
        match self.clients.get(&client_id) {
            Some(c) => c.locked,
            None => false,
        }
    }

    /// The client's account, or a fresh one where there is none yet.
    fn client_or_new(&self, client_id: u16) -> (c: Client)
        requires
            self.wf(),
        ensures
            c@ == self@.account(client_id),
            c.id == client_id,
    {
        match self.clients.get(&client_id) {
            Some(c) => *c,
            None => Client::new(client_id),
        }
    }

    /// Files the account under its id.
    fn put_client(&mut self, c: Client)
        ensures
            final(self)@ == (Ledger { clients: old(self)@.clients.insert(c.id, c@), ..old(self)@ }),
    {
        self.clients.insert(c.id, c);
        assert(self@.clients == old(self)@.clients.insert(c.id, c@));
    }

    /// Stores the transaction under its id.
    fn put_record(&mut self, tx_id: u32, r: TransactionRecord)
        ensures
            final(self)@ == (Ledger {
                transactions: old(self)@.transactions.insert(tx_id, r),
                ..old(self)@
            }),
    {
        self.transactions.insert(tx_id, r);
        assert(self@.clients == old(self)@.clients);
    }

    /// Credits `amount` (ten-thousandths) to the client's available and total
    /// funds, creating the account where needed, and stores the deposit so
    /// that it can be disputed. A locked account is left alone.
    pub fn deposit(&mut self, client_id: u16, tx_id: u32, amount: i128)
        requires
            old(self).wf(),
            old(self)@.deposit(client_id, tx_id, amount).bounded(),
        ensures
            final(self)@ == old(self)@.deposit(client_id, tx_id, amount),
            final(self).wf(),
            !old(self)@.is_locked(client_id) ==> {
                let before = old(self)@.account(client_id);
                let after = final(self)@.clients[client_id];
                &&& after.available == before.available + amount
                &&& after.total == before.total + amount
                &&& after.held == before.held
                &&& final(self)@.transactions[tx_id] == TransactionRecord {
                    kind: TransactionKind::Deposit,
                    client_id,
                    amount,
                    under_dispute: false,
                }
            },
    {
        proof {
            lemma_deposit_consistent(self@, client_id, tx_id, amount);
            if !self@.is_locked(client_id) {
                deposit_credits_and_records_amount(self@, client_id, tx_id, amount);
            }
        }
        if self.is_locked(client_id) {
            return;
        }
        let ghost post = self@.deposit(client_id, tx_id, amount);
        assert(in_range(amount as int) && post.clients[client_id].in_range()) by {
            assert(post.transactions.contains_key(tx_id));
            assert(post.clients.contains_key(client_id));
        }
        let mut client = self.client_or_new(client_id);
        client.available = client.available + amount;
        client.total = client.total + amount;
        self.put_client(client);
        self.put_record(
            tx_id,
            TransactionRecord {
                kind: TransactionKind::Deposit,
                client_id,
                amount,
                under_dispute: false,
            },
        );
    }

    /// Debits `amount` from the client's available and total funds where
    /// the available funds cover it, and stores the withdrawal; with too
    /// little available nothing changes but that the account exists
    /// afterwards. A locked account is left alone.
    pub fn withdrawal(&mut self, client_id: u16, tx_id: u32, amount: i128)
        requires
            old(self).wf(),
            old(self)@.withdrawal(client_id, tx_id, amount).bounded(),
        ensures
            final(self)@ == old(self)@.withdrawal(client_id, tx_id, amount),
            final(self).wf(),
            !old(self)@.is_locked(client_id) && old(self)@.account(client_id).available >= amount
                ==> {
                let before = old(self)@.account(client_id);
                let after = final(self)@.clients[client_id];
                &&& after.available == before.available - amount
                &&& after.total == before.total - amount
                &&& after.held == before.held
                &&& final(self)@.transactions[tx_id] == TransactionRecord {
                    kind: TransactionKind::Withdrawal,
                    client_id,
                    amount,
                    under_dispute: false,
                }
            },
            old(self)@.account(client_id).available < amount ==> {
                &&& final(self)@.account(client_id) == old(self)@.account(client_id)
                &&& final(self)@.transactions == old(self)@.transactions
            },
    {
        proof {
            lemma_withdrawal_consistent(self@, client_id, tx_id, amount);
            if !self@.is_locked(client_id) && self@.account(client_id).available >= amount {
                covered_withdrawal_debits_and_records_amount(self@, client_id, tx_id, amount);
            }
        }
        if self.is_locked(client_id) {
            return;
        }
        let ghost post = self@.withdrawal(client_id, tx_id, amount);
        let mut client = self.client_or_new(client_id);
        if client.available < amount {
            self.put_client(client);
            return;
        }
        assert(in_range(amount as int) && post.clients[client_id].in_range()) by {
            assert(post.transactions.contains_key(tx_id));
            assert(post.clients.contains_key(client_id));
        }
        client.available = client.available - amount;
        client.total = client.total - amount;
        self.put_client(client);
        self.put_record(
            tx_id,
            TransactionRecord {
                kind: TransactionKind::Withdrawal,
                client_id,
                amount,
                under_dispute: false,
            },
        );
    }

    /// Disputes the client's stored transaction `tx_id` where it is not
    /// disputed yet: its amount is held (see `Account::disputed`) and it is
    /// marked disputed. Anything else, or a locked account, is ignored.
    pub fn dispute(&mut self, client_id: u16, tx_id: u32)
        requires
            old(self).wf(),
            old(self)@.dispute(client_id, tx_id).bounded(),
        ensures
            final(self)@ == old(self)@.dispute(client_id, tx_id),
            final(self).wf(),
    {
        proof {
            lemma_dispute_consistent(self@, client_id, tx_id);
        }
        if self.is_locked(client_id) {
            return;
        }
        let (kind, amount) = match self.lookup_tx(client_id, tx_id, false) {
            Some(v) => v,
            None => return,
        };
        let ghost post = self@.dispute(client_id, tx_id);
        match self.clients.get(&client_id) {
            Some(c) => {
                let mut client = *c;
                assert(post.clients.contains_key(client_id));
                assert(self@.transactions.contains_key(tx_id));
                client.apply_dispute(kind, amount);
                self.put_client(client);
                self.put_record(
                    tx_id,
                    TransactionRecord { kind, client_id, amount, under_dispute: true },
                );
            },
            None => {},
        }
    }

    /// Resolves the client's disputed transaction `tx_id`: the dispute is
    /// undone (see `Account::resolved`) and the transaction is no longer
    /// disputed. Anything else, or a locked account, is ignored.
    pub fn resolve(&mut self, client_id: u16, tx_id: u32)
        requires
            old(self).wf(),
            old(self)@.resolve(client_id, tx_id).bounded(),
        ensures
            final(self)@ == old(self)@.resolve(client_id, tx_id),
            final(self).wf(),
    {
        proof {
            lemma_resolve_consistent(self@, client_id, tx_id);
        }
        if self.is_locked(client_id) {
            return;
        }
        let (kind, amount) = match self.lookup_tx(client_id, tx_id, true) {
            Some(v) => v,
            None => return,
        };
        let ghost post = self@.resolve(client_id, tx_id);
        match self.clients.get(&client_id) {
            Some(c) => {
                let mut client = *c;
                assert(post.clients.contains_key(client_id));
                assert(self@.transactions.contains_key(tx_id));
                client.apply_resolve(kind, amount);
                self.put_client(client);
                self.put_record(
                    tx_id,
                    TransactionRecord { kind, client_id, amount, under_dispute: false },
                );
            },
            None => {},
        }
    }

    /// Charges back the client's disputed transaction `tx_id`: its amount
    /// leaves held and total, the account is locked, and the transaction is
    /// no longer disputed. Anything else, or a locked account, is ignored.
    pub fn chargeback(&mut self, client_id: u16, tx_id: u32)
        requires
            old(self).wf(),
            old(self)@.chargeback(client_id, tx_id).bounded(),
        ensures
            final(self)@ == old(self)@.chargeback(client_id, tx_id),
            final(self).wf(),
    {
        proof {
            lemma_chargeback_consistent(self@, client_id, tx_id);
        }
        if self.is_locked(client_id) {
            return;
        }
        let (kind, amount) = match self.lookup_tx(client_id, tx_id, true) {
            Some(v) => v,
            None => return,
        };
        let ghost post = self@.chargeback(client_id, tx_id);
        match self.clients.get(&client_id) {
            Some(c) => {
                let mut client = *c;
                assert(post.clients.contains_key(client_id));
                assert(self@.transactions.contains_key(tx_id));
                assert(post.clients[client_id].in_range());
                client.held = client.held - amount;
                client.total = client.total - amount;
                client.locked = true;
                self.put_client(client);
                self.put_record(
                    tx_id,
                    TransactionRecord { kind, client_id, amount, under_dispute: false },
                );
            },
            None => {},
        }
    }

    /// Applies one transaction row. Rows for a locked account, deposits and
    /// withdrawals without an amount, and rows of an unknown type are
    /// ignored.
    pub fn process_transaction(&mut self, row: TransactionRow)
        requires
            old(self).wf(),
            old(self)@.process(row).bounded(),
        ensures
            final(self)@ == old(self)@.process(row),
            final(self).wf(),
    {
        if self.is_locked(row.client) {
            return;
        }
        let kind = row.tx_type.as_str();
        if same_text(kind, "deposit") {
            if let Some(amount) = row.amount {
                self.deposit(row.client, row.tx, amount);
            }
        } else if same_text(kind, "withdrawal") {
            if let Some(amount) = row.amount {
                self.withdrawal(row.client, row.tx, amount);
            }
        } else if same_text(kind, "dispute") {
            self.dispute(row.client, row.tx);
        } else if same_text(kind, "resolve") {
            self.resolve(row.client, row.tx);
        } else if same_text(kind, "chargeback") {
            self.chargeback(row.client, row.tx);
        }
    }

    /// The ids of all clients, in no particular order.
    fn client_ids(&self) -> (ids: Vec<u16>)
        ensures
            forall|c: u16| #[trigger] ids@.contains(c) <==> self@.clients.contains_key(c),
    {
        let ghost keys = vstd::std_specs::hash::spec_keys_iter(&self.clients).remaining().unref();
        let mut ids: Vec<u16> = Vec::new();
        for k in it: self.clients.keys()
            invariant
                it.seq().unref() == keys,
                ids.len() == it.index(),
                forall|i: int| 0 <= i < ids.len() ==> ids@[i] == keys[i],
        {
            ids.push(*k);
        }
        assert(ids@ == keys);
        assert(keys.to_set() == self.clients@.dom());
        assert forall|c: u16| #[trigger] ids@.contains(c) <==> self@.clients.contains_key(c) by {
            assert(keys.to_set().contains(c) <==> keys.contains(c));
        }
        ids
    }

    /// All accounts, in ascending order of client id.
    pub fn clients_sorted(&self) -> (r: Vec<&Client>)
        requires
            self.wf(),
        ensures
            forall|i: int|
                0 <= i < r.len() ==> {
                    &&& self@.clients.contains_key(#[trigger] r[i].id)
                    &&& self@.clients[r[i].id] == r[i]@
                },
            forall|i: int, j: int| 0 <= i < j < r.len() ==> r[i].id < r[j].id,
            forall|c: u16|
                self@.clients.contains_key(c) ==> exists|i: int|
                    0 <= i < r.len() && #[trigger] r[i].id == c,
    {
        let ids = self.client_ids();
        let sorted = sorted_ids(&ids, 0, ids.len());
        assert(ids@.subrange(0, ids.len() as int) == ids@);
        let mut r: Vec<&Client> = Vec::new();
        let mut i: usize = 0;
        while i < sorted.len()
            invariant
                i <= sorted.len(),
                r.len() == i,
                self.wf(),
                strictly_ascending(sorted@),
                forall|x: u16| #[trigger] sorted@.contains(x) <==> self@.clients.contains_key(x),
                forall|k: int|
                    0 <= k < i ==> {
                        &&& r[k].id == sorted@[k]
                        &&& self@.clients.contains_key(#[trigger] r[k].id)
                        &&& self@.clients[r[k].id] == r[k]@
                    },
            decreases sorted.len() - i,
        {
            let id = sorted[i];
            assert(sorted@.contains(id));
            match self.clients.get(&id) {
                Some(c) => {
                    r.push(c);
                },
                None => {
                    assert(false);
                },
            }
            i = i + 1;
        }
        assert forall|c: u16| self@.clients.contains_key(c) implies exists|k: int|
            0 <= k < r.len() && #[trigger] r[k].id == c by {
            assert(sorted@.contains(c));
            let k = choose|k: int| 0 <= k < sorted.len() && #[trigger] sorted@[k] == c;
            assert(r[k].id == c);
        }
        r
    }

    /// Whether applying the row keeps every balance within what the engine
    /// can hold (`MAX_UNITS` in magnitude), which `process_transaction`
    /// requires.
    pub fn fits_limits(&self, row: &TransactionRow) -> (r: bool)
        requires
            self.wf(),
        ensures
            r == self@.process(*row).bounded(),
    {
        if self.is_locked(row.client) {
            return true;
        }
        let kind = row.tx_type.as_str();
        if same_text(kind, "deposit") {
            match row.amount {
                Some(amount) => self.deposit_fits(row.client, row.tx, amount),
                None => true,
            }
        } else if same_text(kind, "withdrawal") {
            match row.amount {
                Some(amount) => self.withdrawal_fits(row.client, row.tx, amount),
                None => true,
            }
        } else if same_text(kind, "dispute") {
            self.dispute_fits(row.client, row.tx)
        } else if same_text(kind, "resolve") {
            self.resolve_fits(row.client, row.tx)
        } else if same_text(kind, "chargeback") {
            self.chargeback_fits(row.client, row.tx)
        } else {
            true
        }
    }

    fn deposit_fits(&self, client_id: u16, tx_id: u32, amount: i128) -> (r: bool)
        requires
            self.wf(),
        ensures
            r == self@.deposit(client_id, tx_id, amount).bounded(),
    {
        if self.is_locked(client_id) {
            return true;
        }
        let c = self.client_or_new(client_id);
        let ghost a = Account { available: c.available + amount, total: c.total + amount, ..c@ };
        let ghost rec = TransactionRecord {
            kind: TransactionKind::Deposit,
            client_id,
            amount,
            under_dispute: false,
        };
        proof {
            lemma_bounded_after(self@, client_id, a, tx_id, rec);
        }
        if !within(amount) {
            return false;
        }
        within(c.available + amount) && within(c.total + amount)
    }

    fn withdrawal_fits(&self, client_id: u16, tx_id: u32, amount: i128) -> (r: bool)
        requires
            self.wf(),
        ensures
            r == self@.withdrawal(client_id, tx_id, amount).bounded(),
    {
        if self.is_locked(client_id) {
            return true;
        }
        let c = self.client_or_new(client_id);
        if c.available < amount {
            proof {
                lemma_bounded_client(self@, client_id, c@);
            }
            return true;
        }
        let ghost a = Account { available: c.available - amount, total: c.total - amount, ..c@ };
        let ghost rec = TransactionRecord {
            kind: TransactionKind::Withdrawal,
            client_id,
            amount,
            under_dispute: false,
        };
        proof {
            lemma_bounded_after(self@, client_id, a, tx_id, rec);
        }
        if !within(amount) {
            return false;
        }
        within(c.available - amount) && within(c.total - amount)
    }

    fn dispute_fits(&self, client_id: u16, tx_id: u32) -> (r: bool)
        requires
            self.wf(),
        ensures
            r == self@.dispute(client_id, tx_id).bounded(),
    {
        if self.is_locked(client_id) {
            return true;
        }
        let (kind, amount) = match self.lookup_tx(client_id, tx_id, false) {
            Some(v) => v,
            None => return true,
        };
        match self.clients.get(&client_id) {
            Some(c) => {
                assert(self@.transactions.contains_key(tx_id));
                assert(self@.clients.contains_key(client_id));
                assert(c@.in_range() && in_range(amount as int));
                let ghost a = c@.disputed(kind, amount as int);
                proof {
                    lemma_bounded_after(self@, client_id, a, tx_id, self@.flag(tx_id, true)[tx_id]);
                }
                match kind {
                    TransactionKind::Deposit => within(c.available - amount) && within(
                        c.held + amount,
                    ),
                    TransactionKind::Withdrawal => within(c.available + amount) && within(
                        c.held + amount,
                    ) && within(c.total + amount),
                }
            },
            None => true,
        }
    }

    fn resolve_fits(&self, client_id: u16, tx_id: u32) -> (r: bool)
        requires
            self.wf(),
        ensures
            r == self@.resolve(client_id, tx_id).bounded(),
    {
        if self.is_locked(client_id) {
            return true;
        }
        let (kind, amount) = match self.lookup_tx(client_id, tx_id, true) {
            Some(v) => v,
            None => return true,
        };
        match self.clients.get(&client_id) {
            Some(c) => {
                assert(self@.transactions.contains_key(tx_id));
                assert(self@.clients.contains_key(client_id));
                assert(c@.in_range() && in_range(amount as int));
                let ghost a = c@.resolved(kind, amount as int);
                proof {
                    lemma_bounded_after(
                        self@,
                        client_id,
                        a,
                        tx_id,
                        self@.flag(tx_id, false)[tx_id],
                    );
                }
                match kind {
                    TransactionKind::Deposit => within(c.available + amount) && within(
                        c.held - amount,
                    ),
                    TransactionKind::Withdrawal => within(c.available - amount) && within(
                        c.held - amount,
                    ) && within(c.total - amount),
                }
            },
            None => true,
        }
    }

    fn chargeback_fits(&self, client_id: u16, tx_id: u32) -> (r: bool)
        requires
            self.wf(),
        ensures
            r == self@.chargeback(client_id, tx_id).bounded(),
    {
        if self.is_locked(client_id) {
            return true;
        }
        let (_kind, amount) = match self.lookup_tx(client_id, tx_id, true) {
            Some(v) => v,
            None => return true,
        };
        match self.clients.get(&client_id) {
            Some(c) => {
                assert(self@.transactions.contains_key(tx_id));
                assert(self@.clients.contains_key(client_id));
                assert(c@.in_range() && in_range(amount as int));
                let ghost a = c@.charged_back(amount as int);
                proof {
                    lemma_bounded_after(
                        self@,
                        client_id,
                        a,
                        tx_id,
                        self@.flag(tx_id, false)[tx_id],
                    );
                }
                within(c.held - amount) && within(c.total - amount)
            },
            None => true,
        }
    }

    /// The kind and amount of the stored transaction, where it belongs to
    /// the client and its dispute state is as given.
    fn lookup_tx(&self, client_id: u16, tx_id: u32, under_dispute: bool) -> (r: Option<
        (TransactionKind, i128),
    >)
        ensures
            r == (match self@.lookup(client_id, tx_id, under_dispute) {
                Some(rec) => Some((rec.kind, rec.amount)),
                None => None,
            }),
    {
        match self.transactions.get(&tx_id) {
            Some(t) => {
                if t.client_id != client_id || t.under_dispute != under_dispute {
                    None
                } else {
                    Some((t.kind, t.amount))
                }
            },
            None => None,
        }
    }
}

/// Whether an amount lies within what a balance may hold.
fn within(x: i128) -> (r: bool)
    ensures
        r == in_range(x as int),
{
    -MAX_UNITS <= x && x <= MAX_UNITS
}

/// After one account is replaced and one transaction is stored, the ledger
/// is bounded exactly when the new account and the stored amount are.
proof fn lemma_bounded_after(s: Ledger, c: u16, a: Account, tx: u32, r: TransactionRecord)
    requires
        s.bounded(),
    ensures
        (Ledger {
            clients: s.clients.insert(c, a),
            transactions: s.transactions.insert(tx, r),
        }).bounded() <==> a.in_range() && in_range(r.amount as int),
{
    let t = Ledger { clients: s.clients.insert(c, a), transactions: s.transactions.insert(tx, r) };
    assert(t.clients.contains_key(c) && t.transactions.contains_key(tx));
    if a.in_range() && in_range(r.amount as int) {
        assert forall|k: u16| #[trigger] t.clients.contains_key(k) implies t.clients[k].in_range() by {
            if k != c {
                assert(s.clients.contains_key(k));
            }
        }
        assert forall|k: u32| #[trigger] t.transactions.contains_key(k) implies in_range(
            t.transactions[k].amount as int,
        ) by {
            if k != tx {
                assert(s.transactions.contains_key(k));
            }
        }
    }
}

/// After one account is replaced, the ledger is bounded exactly when the
/// new account is.
proof fn lemma_bounded_client(s: Ledger, c: u16, a: Account)
    requires
        s.bounded(),
    ensures
        (Ledger { clients: s.clients.insert(c, a), ..s }).bounded() <==> a.in_range(),
{
    let t = Ledger { clients: s.clients.insert(c, a), ..s };
    assert(t.clients.contains_key(c));
    if a.in_range() {
        assert forall|k: u16| #[trigger] t.clients.contains_key(k) implies t.clients[k].in_range() by {
            if k != c {
                assert(s.clients.contains_key(k));
            }
        }
    }
}

/// Whether two texts are the same.
fn same_text(a: &str, b: &str) -> (r: bool)
    ensures
        r == (a@ == b@),
{
    let n = a.unicode_len();
    if n != b.unicode_len() {
        return false;
    }
    let mut i: usize = 0;
    while i < n
        invariant
            n == a@.len(),
            n == b@.len(),
            i <= n,
            forall|k: int| 0 <= k < i ==> a@[k] == b@[k],
        decreases n - i,
    {
        if a.get_char(i) != b.get_char(i) {
            return false;
        }
        i = i + 1;
    }
    assert(a@ == b@);
    true
}

/// Replacing one account by one filed under its own id keeps the ledger
/// consistent.
proof fn lemma_replace_account(s: Ledger, c: u16, a: Account, txs: Map<u32, TransactionRecord>)
    requires
        s.consistent(),
        a.id == c,
    ensures
        (Ledger { clients: s.clients.insert(c, a), transactions: txs }).consistent(),
{
    let t = Ledger { clients: s.clients.insert(c, a), transactions: txs };
    assert forall|k: u16| #[trigger] t.clients.contains_key(k) implies t.clients[k].id == k by {
        if k != c {
            assert(s.clients.contains_key(k));
        }
    }
}

proof fn lemma_dispute_consistent(s: Ledger, client: u16, tx: u32)
    requires
        s.consistent(),
    ensures
        s.dispute(client, tx).consistent(),
{
    if !s.is_locked(client) && s.lookup(client, tx, false) is Some && s.clients.contains_key(
        client,
    ) {
        let r = s.lookup(client, tx, false)->0;
        lemma_replace_account(
            s,
            client,
            s.clients[client].disputed(r.kind, r.amount as int),
            s.flag(tx, true),
        );
    }
}

proof fn lemma_resolve_consistent(s: Ledger, client: u16, tx: u32)
    requires
        s.consistent(),
    ensures
        s.resolve(client, tx).consistent(),
{
    if !s.is_locked(client) && s.lookup(client, tx, true) is Some && s.clients.contains_key(
        client,
    ) {
        let r = s.lookup(client, tx, true)->0;
        lemma_replace_account(
            s,
            client,
            s.clients[client].resolved(r.kind, r.amount as int),
            s.flag(tx, false),
        );
    }
}

proof fn lemma_chargeback_consistent(s: Ledger, client: u16, tx: u32)
    requires
        s.consistent(),
    ensures
        s.chargeback(client, tx).consistent(),
{
    if !s.is_locked(client) && s.lookup(client, tx, true) is Some && s.clients.contains_key(
        client,
    ) {
        let r = s.lookup(client, tx, true)->0;
        lemma_replace_account(
            s,
            client,
            s.clients[client].charged_back(r.amount as int),
            s.flag(tx, false),
        );
    }
}

impl Default for PaymentEngine {
    fn default() -> (e: PaymentEngine)
        ensures
            e@ == Ledger::empty(),
            e.wf(),
    {
        PaymentEngine::new()
    }
}

proof fn lemma_deposit_consistent(s: Ledger, client: u16, tx: u32, amount: i128)
    requires
        s.consistent(),
    ensures
        s.deposit(client, tx, amount).consistent(),
{
    let t = s.deposit(client, tx, amount);
    assert forall|c: u16| #[trigger] t.clients.contains_key(c) implies t.clients[c].id == c by {
        if c != client {
            assert(s.clients.contains_key(c));
        }
    }
}

proof fn lemma_withdrawal_consistent(s: Ledger, client: u16, tx: u32, amount: i128)
    requires
        s.consistent(),
    ensures
        s.withdrawal(client, tx, amount).consistent(),
{
    let t = s.withdrawal(client, tx, amount);
    assert forall|c: u16| #[trigger] t.clients.contains_key(c) implies t.clients[c].id == c by {
        if c != client {
            assert(s.clients.contains_key(c));
        }
    }
}

} // verus!
