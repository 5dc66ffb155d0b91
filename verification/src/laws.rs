//! Properties of the engine as a whole, proved over the ledger model that
//! the engine's operations are specified by.

use vstd::prelude::*;
use crate::engine::Ledger;
use crate::models::{TransactionKind, TransactionRecord, TransactionRow};

verus! {

/// A deposit to an unlocked account credits exactly the deposited amount
/// to available and total, leaves held as it was, and stores a deposit of
/// exactly that amount for that client, so that a later dispute of it
/// moves exactly that amount from available to held.
pub proof fn deposit_credits_and_records_amount(s: Ledger, client: u16, tx: u32, amount: i128)
    requires
        !s.is_locked(client),
    ensures
        ({
            let before = s.account(client);
            let p = s.deposit(client, tx, amount);
            let d = p.dispute(client, tx).clients[client];
            &&& p.clients.contains_key(client)
            &&& p.clients[client].available == before.available + amount
            &&& p.clients[client].total == before.total + amount
            &&& p.clients[client].held == before.held
            &&& !p.clients[client].locked
            &&& p.clients[client].id == before.id
            &&& p.transactions.contains_key(tx)
            &&& p.transactions[tx] == (TransactionRecord {
                kind: TransactionKind::Deposit,
                client_id: client,
                amount,
                under_dispute: false,
            })
            &&& d.available == before.available
            &&& d.held == before.held + amount
            &&& d.total == before.total + amount
        }),
{
}

/// A withdrawal from an unlocked account whose available funds cover it
/// always succeeds, whatever is held: available and total go down by
/// exactly the amount, held stays, and a withdrawal of exactly that amount
/// is stored for that client.
pub proof fn covered_withdrawal_debits_and_records_amount(
    s: Ledger,
    client: u16,
    tx: u32,
    amount: i128,
)
    requires
        !s.is_locked(client),
        s.account(client).available >= amount,
    ensures
        ({
            let before = s.account(client);
            let p = s.withdrawal(client, tx, amount);
            &&& p.clients.contains_key(client)
            &&& p.clients[client].available == before.available - amount
            &&& p.clients[client].total == before.total - amount
            &&& p.clients[client].held == before.held
            &&& !p.clients[client].locked
            &&& p.clients[client].id == before.id
            &&& p.transactions.contains_key(tx)
            &&& p.transactions[tx] == (TransactionRecord {
                kind: TransactionKind::Withdrawal,
                client_id: client,
                amount,
                under_dispute: false,
            })
        }),
{
}

/// A dispute of a client's stored, undisputed transaction holds exactly its
/// amount: for a deposit it comes out of available (the total stays); for a
/// withdrawal it goes back into available and the total as well. The
/// transaction is then marked disputed, with nothing else about it changed.
pub proof fn dispute_holds_the_amount(s: Ledger, client: u16, tx: u32)
    requires
        !s.is_locked(client),
        s.clients.contains_key(client),
        s.transactions.contains_key(tx),
        s.transactions[tx].client_id == client,
        !s.transactions[tx].under_dispute,
    ensures
        ({
            let r = s.transactions[tx];
            let before = s.clients[client];
            let after = s.dispute(client, tx).clients[client];
            &&& after.held == before.held + r.amount
            &&& after.locked == before.locked
            &&& r.kind == TransactionKind::Deposit ==> after.available == before.available
                - r.amount && after.total == before.total
            &&& r.kind == TransactionKind::Withdrawal ==> after.available == before.available
                + r.amount && after.total == before.total + r.amount
            &&& s.dispute(client, tx).transactions[tx] == TransactionRecord {
                under_dispute: true,
                ..r
            }
        }),
{
}

/// A resolve of a client's disputed transaction releases exactly its
/// amount from held: for a deposit it goes back to available (the total
/// stays); for a withdrawal it leaves available and the total as well. The
/// transaction is then no longer disputed.
pub proof fn resolve_releases_the_amount(s: Ledger, client: u16, tx: u32)
    requires
        !s.is_locked(client),
        s.clients.contains_key(client),
        s.transactions.contains_key(tx),
        s.transactions[tx].client_id == client,
        s.transactions[tx].under_dispute,
    ensures
        ({
            let r = s.transactions[tx];
            let before = s.clients[client];
            let after = s.resolve(client, tx).clients[client];
            &&& after.held == before.held - r.amount
            &&& after.locked == before.locked
            &&& r.kind == TransactionKind::Deposit ==> after.available == before.available
                + r.amount && after.total == before.total
            &&& r.kind == TransactionKind::Withdrawal ==> after.available == before.available
                - r.amount && after.total == before.total - r.amount
            &&& s.resolve(client, tx).transactions[tx] == TransactionRecord {
                under_dispute: false,
                ..r
            }
        }),
{
}

/// A chargeback of a client's disputed transaction removes exactly its
/// amount from held and from the total, leaves available as it was, and
/// locks the account; the transaction is then no longer disputed.
pub proof fn chargeback_removes_the_amount(s: Ledger, client: u16, tx: u32)
    requires
        !s.is_locked(client),
        s.clients.contains_key(client),
        s.transactions.contains_key(tx),
        s.transactions[tx].client_id == client,
        s.transactions[tx].under_dispute,
    ensures
        ({
            let r = s.transactions[tx];
            let before = s.clients[client];
            let after = s.chargeback(client, tx).clients[client];
            &&& after.held == before.held - r.amount
            &&& after.total == before.total - r.amount
            &&& after.available == before.available
            &&& after.locked
            &&& s.chargeback(client, tx).transactions[tx] == TransactionRecord {
                under_dispute: false,
                ..r
            }
        }),
{
}

/// Rows that refer to something that is not there change nothing: a
/// dispute of a transaction that is missing, belongs to another client or
/// is already disputed; a resolve or chargeback of one that is missing,
/// belongs to another client or is not disputed.
pub proof fn unmatched_references_are_ignored(s: Ledger, client: u16, tx: u32)
    ensures
        !(s.transactions.contains_key(tx) && s.transactions[tx].client_id == client
            && !s.transactions[tx].under_dispute) ==> s.dispute(client, tx) == s,
        !(s.transactions.contains_key(tx) && s.transactions[tx].client_id == client
            && s.transactions[tx].under_dispute) ==> s.resolve(client, tx) == s && s.chargeback(
            client,
            tx,
        ) == s,
{
}

/// A row for a locked account changes nothing.
pub proof fn locked_account_ignores_rows(s: Ledger, row: TransactionRow)
    requires
        s.is_locked(row.client),
    ensures
        s.process(row) == s,
{
}

/// A row never touches the account of another client nor a transaction
/// with another id, and never removes an account.
pub proof fn rows_touch_only_their_client(s: Ledger, row: TransactionRow, c: u16)
    requires
        s.clients.contains_key(c),
    ensures
        s.process(row).clients.contains_key(c),
        c != row.client ==> s.process(row).clients[c] == s.clients[c],
        s.process(row).clients.remove(row.client) == s.clients.remove(row.client),
        s.process(row).transactions.remove(row.tx) == s.transactions.remove(row.tx),
{
    let p = s.process(row);
    assert(p.clients.remove(row.client) =~= s.clients.remove(row.client));
    assert(p.transactions.remove(row.tx) =~= s.transactions.remove(row.tx));
}

/// Accounts stay filed under their own ids and are never removed, and a
/// locked account never unlocks.
pub proof fn accounts_persist(s: Ledger, row: TransactionRow, c: u16)
    requires
        s.consistent(),
        s.clients.contains_key(c),
    ensures
        s.process(row).clients.contains_key(c),
        s.process(row).clients[c].id == c,
        s.clients[c].locked ==> s.process(row).clients[c].locked,
{
}

/// For an unlocked account, a row does exactly what the operation its type
/// names does: a deposit or withdrawal with an amount, or a dispute,
/// resolve or chargeback whatever amount it carries.
pub proof fn unlocked_row_is_its_operation(s: Ledger, row: TransactionRow)
    requires
        !s.is_locked(row.client),
    ensures
        row.tx_type@ == "deposit"@ && row.amount is Some ==> s.process(row) == s.deposit(
            row.client,
            row.tx,
            row.amount->0,
        ),
        row.tx_type@ == "withdrawal"@ && row.amount is Some ==> s.process(row) == s.withdrawal(
            row.client,
            row.tx,
            row.amount->0,
        ),
        row.tx_type@ == "dispute"@ ==> s.process(row) == s.dispute(row.client, row.tx),
        row.tx_type@ == "resolve"@ ==> s.process(row) == s.resolve(row.client, row.tx),
        row.tx_type@ == "chargeback"@ ==> s.process(row) == s.chargeback(row.client, row.tx),
{
    reveal_strlit("deposit");
    reveal_strlit("withdrawal");
    reveal_strlit("dispute");
    reveal_strlit("resolve");
    reveal_strlit("chargeback");
    assert("deposit"@[1] != "dispute"@[1]);
    assert("deposit"@.len() != "withdrawal"@.len());
    assert("deposit"@[0] != "resolve"@[0]);
    assert("deposit"@.len() != "chargeback"@.len());
    assert("withdrawal"@[0] != "dispute"@[0]);
    assert("withdrawal"@.len() != "resolve"@.len());
    assert("withdrawal"@[0] != "chargeback"@[0]);
    assert("dispute"@.len() != "chargeback"@.len());
    assert("resolve"@.len() != "chargeback"@.len());
    assert("dispute"@[0] != "resolve"@[0]);
}

/// Once locked, an account stays locked, with its balances frozen, whatever
/// rows follow.
pub proof fn lock_is_permanent(s: Ledger, row: TransactionRow, c: u16)
    requires
        s.is_locked(c),
    ensures
        s.process(row).is_locked(c),
        s.process(row).clients[c] == s.clients[c],
{
}

/// Whether the row disputes or resolves a stored withdrawal, and is not
/// ignored.
pub open spec fn moves_withdrawal(s: Ledger, row: TransactionRow) -> bool {
    &&& !s.is_locked(row.client)
    &&& s.clients.contains_key(row.client)
    &&& {
        ||| row.tx_type@ == "dispute"@ && (s.lookup(row.client, row.tx, false) matches Some(r)
            && r.kind == TransactionKind::Withdrawal)
        ||| row.tx_type@ == "resolve"@ && (s.lookup(row.client, row.tx, true) matches Some(r)
            && r.kind == TransactionKind::Withdrawal)
    }
}

/// Every row but a dispute or resolve of a withdrawal keeps each account's
/// total equal to its available plus its held funds. (A disputed withdrawal
/// is both returned to available and held, so it counts twice until it is
/// resolved or charged back.)
pub proof fn rows_keep_total_the_sum(s: Ledger, row: TransactionRow)
    requires
        s.balanced(),
        !moves_withdrawal(s, row),
    ensures
        s.process(row).balanced(),
{
    let t = s.process(row);
    assert forall|c: u16| #[trigger] t.clients.contains_key(c) implies t.clients[c].total
        == t.clients[c].available + t.clients[c].held by {
        if c != row.client {
            assert(s.clients.contains_key(c));
        } else if s.clients.contains_key(c) {
            assert(s.clients[c].total == s.clients[c].available + s.clients[c].held);
        }
    }
}

/// A resolve right after a dispute of the same transaction puts everything
/// back as it was.
pub proof fn resolve_undoes_dispute(s: Ledger, client: u16, tx: u32)
    requires
        !s.is_locked(client),
        s.clients.contains_key(client),
        s.lookup(client, tx, false) is Some,
    ensures
        s.dispute(client, tx).resolve(client, tx) == s,
{
    let d = s.dispute(client, tx);
    let r = s.lookup(client, tx, false)->0;
    assert(d.lookup(client, tx, true) == Some(
        crate::models::TransactionRecord { under_dispute: true, ..r },
    ));
    let back = d.resolve(client, tx);
    assert(back.clients[client] == s.clients[client]);
    assert(back.clients == s.clients);
    assert(back.transactions == s.transactions);
}

/// Disputing the same transaction twice is the same as disputing it once.
pub proof fn second_dispute_is_ignored(s: Ledger, client: u16, tx: u32)
    ensures
        s.dispute(client, tx).dispute(client, tx) == s.dispute(client, tx),
{
}

/// A withdrawal that the available funds do not cover changes no balance
/// and stores nothing; one they cover leaves the available funds at zero or
/// more.
pub proof fn withdrawals_never_overdraw(s: Ledger, client: u16, tx: u32, amount: i128)
    requires
        !s.is_locked(client),
    ensures
        s.account(client).available < amount ==> {
            &&& s.withdrawal(client, tx, amount).clients[client] == s.account(client)
            &&& s.withdrawal(client, tx, amount).transactions == s.transactions
        },
        s.account(client).available >= amount ==> s.withdrawal(
            client,
            tx,
            amount,
        ).clients[client].available >= 0,
{
}

/// A chargeback of a disputed transaction locks the account.
pub proof fn chargeback_locks(s: Ledger, client: u16, tx: u32)
    requires
        !s.is_locked(client),
        s.clients.contains_key(client),
        s.lookup(client, tx, true) is Some,
    ensures
        s.chargeback(client, tx).is_locked(client),
{
}

/// A chargeback after a dispute reverses the transaction for good and
/// locks the account: a deposit's amount leaves available and total; a
/// withdrawal's amount comes back to available while the total stays as it
/// was before the dispute.
pub proof fn dispute_then_chargeback_reverses(s: Ledger, client: u16, tx: u32)
    requires
        !s.is_locked(client),
        s.clients.contains_key(client),
        s.lookup(client, tx, false) is Some,
    ensures
        ({
            let r = s.lookup(client, tx, false)->0;
            let before = s.clients[client];
            let after = s.dispute(client, tx).chargeback(client, tx).clients[client];
            &&& after.locked
            &&& after.held == before.held
            &&& r.kind == TransactionKind::Deposit ==> {
                &&& after.available == before.available - r.amount
                &&& after.total == before.total - r.amount
            }
            &&& r.kind == TransactionKind::Withdrawal ==> {
                &&& after.available == before.available + r.amount
                &&& after.total == before.total
            }
        }),
{
    let r = s.lookup(client, tx, false)->0;
    let d = s.dispute(client, tx);
    assert(d.lookup(client, tx, true) == Some(
        crate::models::TransactionRecord { under_dispute: true, ..r },
    ));
}

/// A dispute of a deposit moves its amount from available to held and
/// leaves the total as it was.
pub proof fn deposit_dispute_keeps_total(s: Ledger, client: u16, tx: u32)
    requires
        !s.is_locked(client),
        s.clients.contains_key(client),
        s.lookup(client, tx, false) matches Some(r) && r.kind == TransactionKind::Deposit,
    ensures
        ({
            let r = s.lookup(client, tx, false)->0;
            let after = s.dispute(client, tx).clients[client];
            &&& after.total == s.clients[client].total
            &&& after.available == s.clients[client].available - r.amount
            &&& after.held == s.clients[client].held + r.amount
        }),
{
}


/// What transaction `k` counts towards the client's disputed amount: its
/// amount where it is stored, belongs to the client and is under dispute
/// (and, with `withdrawals_only`, is a withdrawal); otherwise nothing.
pub open spec fn disputed_part(
    txs: Map<u32, TransactionRecord>,
    client: u16,
    withdrawals_only: bool,
    k: u32,
) -> int {
    if txs.contains_key(k) && txs[k].client_id == client && txs[k].under_dispute && (
    !withdrawals_only || txs[k].kind == TransactionKind::Withdrawal) {
        txs[k].amount as int
    } else {
        0
    }
}

/// The disputed amounts of the client over the transaction ids below `n`.
pub open spec fn disputed_below(
    txs: Map<u32, TransactionRecord>,
    client: u16,
    withdrawals_only: bool,
    n: nat,
) -> int
    decreases n,
{
    if n == 0 {
        0
    } else {
        disputed_below(txs, client, withdrawals_only, (n - 1) as nat) + disputed_part(
            txs,
            client,
            withdrawals_only,
            (n - 1) as u32,
        )
    }
}

/// The sum of the amounts of the client's transactions under dispute (only
/// its withdrawals, with `withdrawals_only`).
pub open spec fn disputed_sum(
    txs: Map<u32, TransactionRecord>,
    client: u16,
    withdrawals_only: bool,
) -> int {
    disputed_below(txs, client, withdrawals_only, 0x1_0000_0000)
}

proof fn lemma_disputed_below_insert(
    txs: Map<u32, TransactionRecord>,
    client: u16,
    w: bool,
    t: u32,
    r: TransactionRecord,
    n: nat,
)
    requires
        n <= 0x1_0000_0000,
    ensures
        disputed_below(txs.insert(t, r), client, w, n) == disputed_below(txs, client, w, n) + (
        if t < n {
            disputed_part(txs.insert(t, r), client, w, t) - disputed_part(txs, client, w, t)
        } else {
            0
        }),
    decreases n,
{
    if n > 0 {
        lemma_disputed_below_insert(txs, client, w, t, r, (n - 1) as nat);
        let k = (n - 1) as u32;
        if k != t {
            assert(disputed_part(txs.insert(t, r), client, w, k) == disputed_part(txs, client, w, k));
        }
    }
}

/// Storing one transaction changes a client's disputed sum by what that
/// one transaction counts, before and after.
proof fn lemma_disputed_sum_insert(
    txs: Map<u32, TransactionRecord>,
    client: u16,
    w: bool,
    t: u32,
    r: TransactionRecord,
)
    ensures
        disputed_sum(txs.insert(t, r), client, w) == disputed_sum(txs, client, w) + disputed_part(
            txs.insert(t, r),
            client,
            w,
            t,
        ) - disputed_part(txs, client, w, t),
{
    lemma_disputed_below_insert(txs, client, w, t, r, 0x1_0000_0000);
}

proof fn lemma_disputed_below_none(
    txs: Map<u32, TransactionRecord>,
    client: u16,
    w: bool,
    n: nat,
)
    requires
        forall|k: u32| #[trigger] txs.contains_key(k) ==> txs[k].client_id != client,
    ensures
        disputed_below(txs, client, w, n) == 0,
    decreases n,
{
    if n > 0 {
        lemma_disputed_below_none(txs, client, w, (n - 1) as nat);
        let k = (n - 1) as u32;
        if txs.contains_key(k) {
        }
    }
}

/// Every stored transaction belongs to a client that has an account.
pub open spec fn owned(s: Ledger) -> bool {
    forall|t: u32| #[trigger]
        s.transactions.contains_key(t) ==> s.clients.contains_key(s.transactions[t].client_id)
}

/// Each account holds exactly the amounts of its transactions under
/// dispute.
pub open spec fn held_is_disputed(s: Ledger) -> bool {
    &&& owned(s)
    &&& forall|c: u16| #[trigger]
        s.clients.contains_key(c) ==> s.clients[c].held == disputed_sum(s.transactions, c, false)
}

/// Each unlocked account's available plus held funds are its total plus
/// its withdrawals under dispute (a disputed withdrawal is both returned to
/// available and held).
pub open spec fn balance_counts_disputed_withdrawals(s: Ledger) -> bool {
    &&& owned(s)
    &&& forall|c: u16| #[trigger]
        s.clients.contains_key(c) && !s.clients[c].locked ==> s.clients[c].available
            + s.clients[c].held == s.clients[c].total + disputed_sum(s.transactions, c, true)
}

/// Whether the row is a deposit or withdrawal that reuses the id of a
/// transaction under dispute.
pub open spec fn overwrites_dispute(s: Ledger, row: TransactionRow) -> bool {
    &&& row.tx_type@ == "deposit"@ || row.tx_type@ == "withdrawal"@
    &&& s.transactions.contains_key(row.tx)
    &&& s.transactions[row.tx].under_dispute
}

/// An engine with no transactions meets both balance invariants.
pub proof fn empty_ledger_is_balanced()
    ensures
        held_is_disputed(Ledger::empty()),
        balance_counts_disputed_withdrawals(Ledger::empty()),
{
}

/// Storing an undisputed transaction of an existing (or new) client, where
/// no disputed one is replaced, keeps every client's disputed sums.
proof fn lemma_store_undisputed(s: Ledger, t: u32, r: TransactionRecord, c: u16, w: bool)
    requires
        !r.under_dispute,
        !(s.transactions.contains_key(t) && s.transactions[t].under_dispute),
    ensures
        disputed_sum(s.transactions.insert(t, r), c, w) == disputed_sum(s.transactions, c, w),
{
    lemma_disputed_sum_insert(s.transactions, c, w, t, r);
}

/// Marking the client's transaction `tx` as (not) disputed changes the
/// client's disputed sums by its amount, and no other client's.
proof fn lemma_flag(s: Ledger, client: u16, tx: u32, flag: bool, c: u16, w: bool)
    requires
        s.transactions.contains_key(tx),
        s.transactions[tx].client_id == client,
        s.transactions[tx].under_dispute != flag,
    ensures
        ({
            let r = s.transactions[tx];
            let counts = c == client && (!w || r.kind == TransactionKind::Withdrawal);
            disputed_sum(s.flag(tx, flag), c, w) == disputed_sum(s.transactions, c, w) + (if !counts {
                0
            } else if flag {
                r.amount as int
            } else {
                -r.amount
            })
        }),
{
    lemma_disputed_sum_insert(
        s.transactions,
        c,
        w,
        tx,
        TransactionRecord { under_dispute: flag, ..s.transactions[tx] },
    );
}

/// A client without an account has no disputed amounts.
proof fn lemma_no_account_no_disputes(s: Ledger, c: u16, w: bool)
    requires
        owned(s),
        !s.clients.contains_key(c),
    ensures
        disputed_sum(s.transactions, c, w) == 0,
{
    assert forall|k: u32| #[trigger] s.transactions.contains_key(k) implies s.transactions[k].client_id
        != c by {
    }
    lemma_disputed_below_none(s.transactions, c, w, 0x1_0000_0000);
}


/// Replacing the client's account and storing an undisputed transaction of
/// that client, where no disputed one is replaced, keeps both invariants
/// whenever the new account relates to the old one as the invariants need.
proof fn lemma_store_with_account(
    s: Ledger,
    c: u16,
    a: crate::models::Account,
    t: u32,
    r: TransactionRecord,
)
    requires
        !r.under_dispute,
        r.client_id == c,
        !(s.transactions.contains_key(t) && s.transactions[t].under_dispute),
        a.held == s.account(c).held,
        a.available - a.total == s.account(c).available - s.account(c).total,
        a.locked == s.account(c).locked,
    ensures
        held_is_disputed(s) ==> held_is_disputed(
            Ledger { clients: s.clients.insert(c, a), transactions: s.transactions.insert(t, r) },
        ),
        balance_counts_disputed_withdrawals(s) ==> balance_counts_disputed_withdrawals(
            Ledger { clients: s.clients.insert(c, a), transactions: s.transactions.insert(t, r) },
        ),
{
    let p = Ledger { clients: s.clients.insert(c, a), transactions: s.transactions.insert(t, r) };
    if owned(s) {
        assert forall|k: u32| #[trigger] p.transactions.contains_key(k) implies p.clients.contains_key(
            p.transactions[k].client_id,
        ) by {
            if k != t {
                assert(s.transactions.contains_key(k));
            }
        }
        if !s.clients.contains_key(c) {
            lemma_no_account_no_disputes(s, c, false);
            lemma_no_account_no_disputes(s, c, true);
        }
    }
    if held_is_disputed(s) {
        assert forall|d: u16| #[trigger] p.clients.contains_key(d) implies p.clients[d].held
            == disputed_sum(p.transactions, d, false) by {
            lemma_store_undisputed(s, t, r, d, false);
            if d != c {
                assert(s.clients.contains_key(d));
            }
        }
    }
    if balance_counts_disputed_withdrawals(s) {
        assert forall|d: u16| #[trigger] p.clients.contains_key(d) && !p.clients[d].locked implies p.clients[d].available
            + p.clients[d].held == p.clients[d].total + disputed_sum(p.transactions, d, true) by {
            lemma_store_undisputed(s, t, r, d, true);
            if d != c {
                assert(s.clients.contains_key(d));
            }
        }
    }
}

proof fn lemma_deposit_invariants(s: Ledger, c: u16, tx: u32, amount: i128)
    requires
        !(s.transactions.contains_key(tx) && s.transactions[tx].under_dispute),
    ensures
        held_is_disputed(s) ==> held_is_disputed(s.deposit(c, tx, amount)),
        balance_counts_disputed_withdrawals(s) ==> balance_counts_disputed_withdrawals(
            s.deposit(c, tx, amount),
        ),
{
    if !s.is_locked(c) {
        let a = s.account(c);
        lemma_store_with_account(
            s,
            c,
            crate::models::Account { available: a.available + amount, total: a.total + amount, ..a },
            tx,
            TransactionRecord {
                kind: TransactionKind::Deposit,
                client_id: c,
                amount,
                under_dispute: false,
            },
        );
    }
}

proof fn lemma_withdrawal_invariants(s: Ledger, c: u16, tx: u32, amount: i128)
    requires
        !(s.transactions.contains_key(tx) && s.transactions[tx].under_dispute),
    ensures
        held_is_disputed(s) ==> held_is_disputed(s.withdrawal(c, tx, amount)),
        balance_counts_disputed_withdrawals(s) ==> balance_counts_disputed_withdrawals(
            s.withdrawal(c, tx, amount),
        ),
{
    if !s.is_locked(c) {
        let a = s.account(c);
        if a.available < amount {
            let p = s.withdrawal(c, tx, amount);
            if owned(s) {
                assert forall|k: u32| #[trigger] p.transactions.contains_key(k) implies p.clients.contains_key(
                    p.transactions[k].client_id,
                ) by {
                    assert(s.transactions.contains_key(k));
                }
                if !s.clients.contains_key(c) {
                    lemma_no_account_no_disputes(s, c, false);
                    lemma_no_account_no_disputes(s, c, true);
                }
            }
            if held_is_disputed(s) {
                assert forall|d: u16| #[trigger] p.clients.contains_key(d) implies p.clients[d].held
                    == disputed_sum(p.transactions, d, false) by {
                    if d != c {
                        assert(s.clients.contains_key(d));
                    }
                }
            }
            if balance_counts_disputed_withdrawals(s) {
                assert forall|d: u16| #[trigger] p.clients.contains_key(d) && !p.clients[d].locked implies p.clients[d].available
                    + p.clients[d].held == p.clients[d].total + disputed_sum(p.transactions, d, true) by {
                    if d != c {
                        assert(s.clients.contains_key(d));
                    }
                }
            }
        } else {
            lemma_store_with_account(
                s,
                c,
                crate::models::Account {
                    available: a.available - amount,
                    total: a.total - amount,
                    ..a
                },
                tx,
                TransactionRecord {
                    kind: TransactionKind::Withdrawal,
                    client_id: c,
                    amount,
                    under_dispute: false,
                },
            );
        }
    }
}


/// Replacing the client's account and flipping the dispute flag of one of
/// its transactions keeps both invariants whenever the held funds move by
/// the transaction's amount, and the balance relation moves with the
/// disputed withdrawals (or the account ends up locked).
proof fn lemma_flag_with_account(
    s: Ledger,
    c: u16,
    tx: u32,
    flag: bool,
    a: crate::models::Account,
)
    requires
        s.clients.contains_key(c),
        s.transactions.contains_key(tx),
        s.transactions[tx].client_id == c,
        s.transactions[tx].under_dispute != flag,
        ({
            let r = s.transactions[tx];
            let delta = if flag {
                r.amount as int
            } else {
                -r.amount
            };
            let old_a = s.clients[c];
            &&& a.held == old_a.held + delta
            &&& !a.locked ==> !old_a.locked && (a.available + a.held - a.total) - (old_a.available
                + old_a.held - old_a.total) == (if r.kind == TransactionKind::Withdrawal {
                delta
            } else {
                0
            })
        }),
    ensures
        held_is_disputed(s) ==> held_is_disputed(
            Ledger { clients: s.clients.insert(c, a), transactions: s.flag(tx, flag) },
        ),
        balance_counts_disputed_withdrawals(s) ==> balance_counts_disputed_withdrawals(
            Ledger { clients: s.clients.insert(c, a), transactions: s.flag(tx, flag) },
        ),
{
    let p = Ledger { clients: s.clients.insert(c, a), transactions: s.flag(tx, flag) };
    if owned(s) {
        assert forall|k: u32| #[trigger] p.transactions.contains_key(k) implies p.clients.contains_key(
            p.transactions[k].client_id,
        ) by {
            if k != tx {
                assert(s.transactions.contains_key(k));
            }
        }
    }
    if held_is_disputed(s) {
        assert forall|d: u16| #[trigger] p.clients.contains_key(d) implies p.clients[d].held
            == disputed_sum(p.transactions, d, false) by {
            lemma_flag(s, c, tx, flag, d, false);
            if d != c {
                assert(s.clients.contains_key(d));
            }
        }
    }
    if balance_counts_disputed_withdrawals(s) {
        assert forall|d: u16| #[trigger] p.clients.contains_key(d) && !p.clients[d].locked implies p.clients[d].available
            + p.clients[d].held == p.clients[d].total + disputed_sum(p.transactions, d, true) by {
            lemma_flag(s, c, tx, flag, d, true);
            if d != c {
                assert(s.clients.contains_key(d));
            }
        }
    }
}

proof fn lemma_dispute_invariants(s: Ledger, c: u16, tx: u32)
    ensures
        held_is_disputed(s) ==> held_is_disputed(s.dispute(c, tx)),
        balance_counts_disputed_withdrawals(s) ==> balance_counts_disputed_withdrawals(
            s.dispute(c, tx),
        ),
{
    if !s.is_locked(c) && s.lookup(c, tx, false) is Some && s.clients.contains_key(c) {
        let r = s.lookup(c, tx, false)->0;
        lemma_flag_with_account(s, c, tx, true, s.clients[c].disputed(r.kind, r.amount as int));
    }
}

proof fn lemma_resolve_invariants(s: Ledger, c: u16, tx: u32)
    ensures
        held_is_disputed(s) ==> held_is_disputed(s.resolve(c, tx)),
        balance_counts_disputed_withdrawals(s) ==> balance_counts_disputed_withdrawals(
            s.resolve(c, tx),
        ),
{
    if !s.is_locked(c) && s.lookup(c, tx, true) is Some && s.clients.contains_key(c) {
        let r = s.lookup(c, tx, true)->0;
        lemma_flag_with_account(s, c, tx, false, s.clients[c].resolved(r.kind, r.amount as int));
    }
}

proof fn lemma_chargeback_invariants(s: Ledger, c: u16, tx: u32)
    ensures
        held_is_disputed(s) ==> held_is_disputed(s.chargeback(c, tx)),
        balance_counts_disputed_withdrawals(s) ==> balance_counts_disputed_withdrawals(
            s.chargeback(c, tx),
        ),
{
    if !s.is_locked(c) && s.lookup(c, tx, true) is Some && s.clients.contains_key(c) {
        let r = s.lookup(c, tx, true)->0;
        lemma_flag_with_account(s, c, tx, false, s.clients[c].charged_back(r.amount as int));
    }
}

/// Each account holds exactly the amounts of its transactions under
/// dispute, after any row that does not reuse the id of a transaction under
/// dispute for a new deposit or withdrawal.
pub proof fn held_stays_the_disputed_sum(s: Ledger, row: TransactionRow)
    requires
        held_is_disputed(s),
        !overwrites_dispute(s, row),
    ensures
        held_is_disputed(s.process(row)),
{
    lemma_row_invariants(s, row);
}

/// Each unlocked account's available plus held funds stay its total plus
/// its withdrawals under dispute, after any row that does not reuse the id
/// of a transaction under dispute for a new deposit or withdrawal. In
/// particular an unlocked account with no withdrawal under dispute has a
/// total equal to its available plus held funds.
pub proof fn balance_stays_total_plus_disputed_withdrawals(s: Ledger, row: TransactionRow)
    requires
        balance_counts_disputed_withdrawals(s),
        !overwrites_dispute(s, row),
    ensures
        balance_counts_disputed_withdrawals(s.process(row)),
{
    lemma_row_invariants(s, row);
}

proof fn lemma_row_invariants(s: Ledger, row: TransactionRow)
    requires
        !overwrites_dispute(s, row),
    ensures
        held_is_disputed(s) ==> held_is_disputed(s.process(row)),
        balance_counts_disputed_withdrawals(s) ==> balance_counts_disputed_withdrawals(
            s.process(row),
        ),
{
    if !s.is_locked(row.client) {
        if row.tx_type@ == "deposit"@ {
            if let Some(a) = row.amount {
                lemma_deposit_invariants(s, row.client, row.tx, a);
            }
        } else if row.tx_type@ == "withdrawal"@ {
            if let Some(a) = row.amount {
                lemma_withdrawal_invariants(s, row.client, row.tx, a);
            }
        } else if row.tx_type@ == "dispute"@ {
            lemma_dispute_invariants(s, row.client, row.tx);
        } else if row.tx_type@ == "resolve"@ {
            lemma_resolve_invariants(s, row.client, row.tx);
        } else if row.tx_type@ == "chargeback"@ {
            lemma_chargeback_invariants(s, row.client, row.tx);
        }
    }
}

} // verus!
