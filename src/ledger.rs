//! The ledger: every account, and the table of accepted events that are not
//! under dispute.
//!
//! Each operation is a total function of the state: a reference to an
//! unknown account or event leaves the state as it was. So does an event
//! whose effect would take a balance out of the range of `i64`.
use crate::account::{
    balanced,
    lemma_held_sum_insert,
    lemma_held_sum_remove,
    opened,
    AccountView,
    ClientData,
};
use crate::account::row_text;
use crate::parse::{header_spec, parse_header, parse_transaction, transaction_spec, ParseError, Transaction};
use crate::{parse_message, LedgerErr};
use std::collections::{BTreeMap, HashMap};
use vstd::prelude::*;
use vstd::set_lib::lemma_subset_equality;
use vstd::string::StringSliceAdditionalSpecFns;
use vstd::utf8::encode_utf8;

verus! {

/// The whole state as mathematical values.
pub struct LedgerView {
    /// The accounts, by client id.
    pub clients: Map<u16, AccountView>,
    /// The accepted deposits and withdrawals not yet disputed: tx id to
    /// signed amount.
    pub transactions: Map<u32, i64>,
}

pub open spec fn fits(x: int) -> bool {
    i64::MIN <= x <= i64::MAX
}

/// A deposit (positive `amount`) or withdrawal (negative `amount`) with id
/// `tx` for `client`. An unknown client gets a new account; a locked account
/// takes neither the amount nor the event.
pub open spec fn insert_spec(l: LedgerView, client: u16, tx: u32, amount: i64) -> LedgerView {
    if !l.clients.contains_key(client) {
        LedgerView {
            clients: l.clients.insert(client, opened(amount)),
            transactions: l.transactions.insert(tx, amount),
        }
    } else {
        let a = l.clients[client];
        if !a.locked && fits(a.available + amount) && fits(a.total + amount) {
            LedgerView {
                clients: l.clients.insert(
                    client,
                    AccountView { available: a.available + amount, total: a.total + amount, ..a },
                ),
                transactions: l.transactions.insert(tx, amount),
            }
        } else {
            l
        }
    }
}

/// A dispute on `tx` by `client`: the event moves from the table of
/// accepted events to the account's held table, and its amount leaves the
/// available funds. Nothing happens if the client has no account, `tx` is
/// not in the table, or the account already holds `tx` in dispute.
pub open spec fn hold_spec(l: LedgerView, client: u16, tx: u32) -> LedgerView {
    if l.clients.contains_key(client) && l.transactions.contains_key(tx) {
        let a = l.clients[client];
        let v = l.transactions[tx];
        if !a.held.contains_key(tx) && fits(a.available - v) {
            LedgerView {
                clients: l.clients.insert(
                    client,
                    AccountView { held: a.held.insert(tx, v), available: a.available - v, ..a },
                ),
                transactions: l.transactions.remove(tx),
            }
        } else {
            l
        }
    } else {
        l
    }
}

/// A resolve of `tx` by `client`: the held amount returns to the available
/// funds and the event is gone for good.
pub open spec fn resolve_spec(l: LedgerView, client: u16, tx: u32) -> LedgerView {
    if l.clients.contains_key(client) && l.clients[client].held.contains_key(tx) {
        let a = l.clients[client];
        let v = a.held[tx];
        if fits(a.available + v) {
            LedgerView {
                clients: l.clients.insert(
                    client,
                    AccountView { held: a.held.remove(tx), available: a.available + v, ..a },
                ),
                transactions: l.transactions,
            }
        } else {
            l
        }
    } else {
        l
    }
}

/// A chargeback of `tx` by `client`: the held amount leaves the total, the
/// event is gone for good and the account locks.
pub open spec fn chargeback_spec(l: LedgerView, client: u16, tx: u32) -> LedgerView {
    if l.clients.contains_key(client) && l.clients[client].held.contains_key(tx) {
        let a = l.clients[client];
        let v = a.held[tx];
        if fits(a.total - v) {
            LedgerView {
                clients: l.clients.insert(
                    client,
                    AccountView { held: a.held.remove(tx), total: a.total - v, locked: true, ..a },
                ),
                transactions: l.transactions,
            }
        } else {
            l
        }
    } else {
        l
    }
}

/// The effect of one decoded event; a withdrawal takes its amount away.
pub open spec fn apply_spec(l: LedgerView, t: Transaction) -> LedgerView {
    match t {
        Transaction::Deposit(c, tx, a) => insert_spec(l, c, tx, a),
        Transaction::Withdrawal(c, tx, a) => insert_spec(l, c, tx, (-a) as i64),
        Transaction::Dispute(c, tx) => hold_spec(l, c, tx),
        Transaction::Resolve(c, tx) => resolve_spec(l, c, tx),
        Transaction::Chargeback(c, tx) => chargeback_spec(l, c, tx),
    }
}

/// Every account's total is its available funds plus what it holds in
/// dispute.
pub open spec fn all_balanced(l: LedgerView) -> bool {
    forall|c: u16| #[trigger] l.clients.contains_key(c) ==> balanced(l.clients[c])
}

/// Whether `c` has the Unicode White_Space property, which is what
/// `char::is_whitespace` tests.
pub open spec fn is_white_space(c: char) -> bool {
    ('\u{9}' <= c && c <= '\u{d}') || c == ' ' || c == '\u{85}' || c == '\u{a0}' || c
        == '\u{1680}' || ('\u{2000}' <= c && c <= '\u{200a}') || c == '\u{2028}' || c
        == '\u{2029}' || c == '\u{202f}' || c == '\u{205f}' || c == '\u{3000}'
}

/// The first position at or after `i` that does not hold white space.
pub open spec fn first_kept(s: Seq<char>, i: int) -> int
    decreases s.len() - i,
{
    if 0 <= i < s.len() && is_white_space(s[i]) {
        first_kept(s, i + 1)
    } else {
        i
    }
}

/// The end of `s[..j]` once its trailing white space is gone.
pub open spec fn end_kept(s: Seq<char>, j: int) -> int
    decreases j,
{
    if 0 < j <= s.len() && is_white_space(s[j - 1]) {
        end_kept(s, j - 1)
    } else {
        j
    }
}

/// `s` without its leading and trailing white space.
pub open spec fn trimmed(s: Seq<char>) -> Seq<char> {
    let a = first_kept(s, 0);
    if a >= s.len() {
        Seq::empty()
    } else {
        s.subrange(a, end_kept(s, s.len() as int))
    }
}

/// A line that holds nothing but white space, which is skipped.
pub open spec fn is_blank(line: Seq<char>) -> bool {
    trimmed(line).len() == 0
}

/// The outcome of the data rows `rows`, the first of them being line number
/// `first`: the state after them, and the error and line number of the
/// first row that failed to decode, where processing stopped.
pub open spec fn rows_outcome(l: LedgerView, rows: Seq<String>, first: int) -> (
    LedgerView,
    Option<(ParseError, int)>,
)
    decreases rows.len(),
{
    if rows.len() == 0 {
        (l, None)
    } else {
        let (m, err) = rows_outcome(l, rows.drop_last(), first);
        let row = rows.last()@;
        if err is Some || is_blank(row) {
            (m, err)
        } else {
            match transaction_spec(encode_utf8(row)) {
                Ok(t) => (apply_spec(m, t), None),
                Err(e) => (m, Some((e, first + rows.len() - 1))),
            }
        }
    }
}

/// The outcome of a whole file given as its lines: the header on line 1
/// (empty when there are no lines), then the data rows from line 2.
pub open spec fn csv_outcome(l: LedgerView, lines: Seq<String>) -> (
    LedgerView,
    Option<(ParseError, int)>,
) {
    let header = if lines.len() == 0 {
        Seq::<char>::empty()
    } else {
        lines[0]@
    };
    match header_spec(encode_utf8(header)) {
        Err(e) => (l, Some((e, 1))),
        Ok(_) => rows_outcome(l, lines.drop_first(), 2),
    }
}

/// The statement rows of the accounts `ids`, each on a line of its own.
pub open spec fn rows_text(l: LedgerView, ids: Seq<u16>) -> Seq<char>
    decreases ids.len(),
{
    if ids.len() == 0 {
        Seq::empty()
    } else {
        rows_text(l, ids.drop_last()) + "\n"@ + row_text(ids.last(), l.clients[ids.last()])
    }
}

/// The statement: a header line, then the rows of the accounts `ids`.
pub open spec fn statement_text(l: LedgerView, ids: Seq<u16>) -> Seq<char> {
    "client, available, held, total, locked"@ + rows_text(l, ids)
}

/// Once a row has failed, the rows after it change nothing.
proof fn lemma_rows_error_sticks(l: LedgerView, rows: Seq<String>, first: int, n: int)
    requires
        0 <= n <= rows.len(),
        rows_outcome(l, rows.take(n), first).1 is Some,
    ensures
        rows_outcome(l, rows, first) == rows_outcome(l, rows.take(n), first),
    decreases rows.len(),
{
    if n == rows.len() {
        assert(rows.take(n) =~= rows);
    } else {
        assert(rows.drop_last().take(n) =~= rows.take(n));
        lemma_rows_error_sticks(l, rows.drop_last(), first, n);
    }
}

/// Relies on `str::trim`: the slice of `s` without its leading and trailing
/// white space, as `char::is_whitespace` defines it.
#[verifier::external_body]
fn trim(s: &str) -> (r: &str)
    ensures
        r@ == trimmed(s@),
{
    s.trim()
}

/// Checks the header line of a file; a failure is reported on line 1.
pub fn validate_header(line: &str) -> (r: Result<(), LedgerErr>)
    ensures
        match header_spec(line.spec_bytes()) {
            Ok(_) => r is Ok,
            Err(e) => r matches Err(LedgerErr::Parse(m, n)) && m@ == parse_message(e) && n == 1,
        },
{
    match parse_header(line) {
        Ok(()) => Ok(()),
        Err(e) => Err(LedgerErr::from_parse(e, 1)),
    }
}

/// Every account, and the table of accepted events not under dispute.
#[derive(Debug)]
pub struct Ledger {
    clients: HashMap<u16, ClientData>,
    transactions: BTreeMap<u32, i64>,
}

impl View for Ledger {
    type V = LedgerView;

    closed spec fn view(&self) -> LedgerView {
        LedgerView {
            clients: self.clients@.map_values(|c: ClientData| c@),
            transactions: self.transactions@,
        }
    }
}

impl Default for Ledger {
    /// A ledger with no accounts and no events.
    fn default() -> (r: Ledger)
        ensures
            r@.clients == Map::<u16, AccountView>::empty(),
            r@.transactions == Map::<u32, i64>::empty(),
            r.wf(),
    {
        let r = Ledger { clients: HashMap::new(), transactions: BTreeMap::new() };
        assert(r@.clients =~= Map::<u16, AccountView>::empty());
        r
    }
}

impl Ledger {
    /// The state is well formed: every account is balanced.
    pub open spec fn wf(&self) -> bool {
        all_balanced(self@)
    }

    /// Takes the account of `client_id` out of the map, to put it back after
    /// a change.
    fn take_client(&mut self, client_id: u16) -> (r: Option<ClientData>)
        ensures
            final(self).transactions@ == old(self).transactions@,
            final(self).clients@ == old(self).clients@.remove(client_id),
            match r {
                Some(c) => old(self).clients@.contains_key(client_id) && old(self).clients@[client_id]
                    == c,
                None => !old(self).clients@.contains_key(client_id) && final(self).clients@
                    == old(self).clients@,
            },
    {
        let r = self.clients.remove(&client_id);
        proof {
            if r is None {
                assert(self.clients@ =~= old(self).clients@);
            }
        }
        r
    }

    /// Puts back the account of `client_id` taken out by `take_client`.
    fn put_client(&mut self, client_id: u16, client: ClientData)
        ensures
            final(self).transactions@ == old(self).transactions@,
            final(self).clients@ == old(self).clients@.insert(client_id, client),
            final(self)@.clients == old(self)@.clients.insert(client_id, client@),
    {
        self.clients.insert(client_id, client);
        assert(self@.clients =~= old(self)@.clients.insert(client_id, client@));
    }

    /// Applies a deposit (positive `amount`) or a withdrawal (negative
    /// `amount`) with id `transaction_id` to the account of `client_id`.
    pub fn insert_transaction(&mut self, client_id: u16, transaction_id: u32, amount: i64)
        requires
            old(self).wf(),
        ensures
            final(self).wf(),
            final(self)@ == insert_spec(old(self)@, client_id, transaction_id, amount),
    {
        let ghost l = self@;
        match self.take_client(client_id) {
            Some(mut client) => {
                if client.credit(amount) {
                    self.transactions.insert(transaction_id, amount);
                }
                self.put_client(client_id, client);
                assert(self@.clients =~= insert_spec(l, client_id, transaction_id, amount).clients);
            },
            None => {
                self.put_client(client_id, ClientData::new(amount));
                self.transactions.insert(transaction_id, amount);
            },
        }
        assert(self@.clients.dom() =~= l.clients.dom().insert(client_id));
    }

    /// Opens a dispute by `client_id` on the event `transaction_id`.
    pub fn hold(&mut self, client_id: u16, transaction_id: u32)
        requires
            old(self).wf(),
        ensures
            final(self).wf(),
            final(self)@ == hold_spec(old(self)@, client_id, transaction_id),
    {
        let ghost l = self@;
        let amount = match self.transactions.get(&transaction_id) {
            Some(v) => *v,
            None => return ,
        };
        match self.take_client(client_id) {
            Some(mut client) => {
                proof {
                    assert(l.clients.contains_key(client_id));
                    assert(balanced(client@));
                }
                let ghost before = client@;
                if client.hold(transaction_id, amount) {
                    self.transactions.remove(&transaction_id);
                    proof {
                        lemma_held_sum_insert(before.held, transaction_id, amount);
                    }
                }
                self.put_client(client_id, client);
                assert(self@.clients =~= hold_spec(l, client_id, transaction_id).clients);
            },
            None => {},
        }
    }

    /// Resolves the dispute by `client_id` on `transaction_id`: the held
    /// amount returns to the available funds.
    pub fn resolve(&mut self, client_id: u16, transaction_id: u32)
        requires
            old(self).wf(),
        ensures
            final(self).wf(),
            final(self)@ == resolve_spec(old(self)@, client_id, transaction_id),
    {
        let ghost l = self@;
        match self.take_client(client_id) {
            Some(mut client) => {
                proof {
                    assert(l.clients.contains_key(client_id));
                    assert(balanced(client@));
                    if client@.held.contains_key(transaction_id) {
                        lemma_held_sum_remove(client@.held, transaction_id);
                    }
                }
                client.release(transaction_id);
                self.put_client(client_id, client);
                assert(self@.clients =~= resolve_spec(l, client_id, transaction_id).clients);
            },
            None => {},
        }
    }

    /// Reverses the disputed event `transaction_id` of `client_id`: the held
    /// amount leaves the total and the account locks.
    pub fn chageback(&mut self, client_id: u16, transaction_id: u32)
        requires
            old(self).wf(),
        ensures
            final(self).wf(),
            final(self)@ == chargeback_spec(old(self)@, client_id, transaction_id),
    {
        let ghost l = self@;
        match self.take_client(client_id) {
            Some(mut client) => {
                proof {
                    assert(l.clients.contains_key(client_id));
                    assert(balanced(client@));
                    if client@.held.contains_key(transaction_id) {
                        lemma_held_sum_remove(client@.held, transaction_id);
                    }
                }
                client.reverse(transaction_id);
                self.put_client(client_id, client);
                assert(self@.clients =~= chargeback_spec(l, client_id, transaction_id).clients);
            },
            None => {},
        }
    }

    /// Applies one decoded event.
    fn apply(&mut self, t: Transaction)
        requires
            old(self).wf(),
            t matches Transaction::Withdrawal(_, _, a) ==> a >= 0,
        ensures
            final(self).wf(),
            final(self)@ == apply_spec(old(self)@, t),
    {
        match t {
            Transaction::Withdrawal(id, tx, amount) => self.insert_transaction(id, tx, -amount),
            Transaction::Deposit(id, tx, amount) => self.insert_transaction(id, tx, amount),
            Transaction::Dispute(id, tx) => self.hold(id, tx),
            Transaction::Resolve(id, tx) => self.resolve(id, tx),
            Transaction::Chargeback(id, tx) => self.chageback(id, tx),
        }
    }

    /// Processes a file given as its lines: checks the header on the first
    /// line, then applies the event of each following line in order, skipping
    /// blank lines. Stops at the first line that does not decode and reports
    /// it with its 1-based line number; the events before it stay applied.
    pub fn consume_csv(&mut self, lines: &[String]) -> (r: Result<(), LedgerErr>)
        requires
            old(self).wf(),
        ensures
            final(self).wf(),
            final(self)@ == csv_outcome(old(self)@, lines@).0,
            match csv_outcome(old(self)@, lines@).1 {
                None => r is Ok,
                Some((e, n)) => r matches Err(LedgerErr::Parse(m, k)) && m@ == parse_message(e) && k
                    == n,
            },
    {
        let ghost l0 = self@;
        proof {
            reveal_strlit("");
        }
        let header: &str = if lines.len() == 0 {
            ""
        } else {
            lines[0].as_str()
        };
        match validate_header(header) {
            Err(e) => return Err(e),
            Ok(()) => {},
        }
        let ghost rows = lines@.drop_first();
        let mut i: usize = 1;
        while i < lines.len()
            invariant
                1 <= i <= lines@.len(),
                rows == lines@.drop_first(),
                l0 == old(self)@,
                self.wf(),
                header_spec(encode_utf8(lines@[0]@)) is Ok,
                rows_outcome(l0, rows.take(i - 1), 2) == (self@, None::<(ParseError, int)>),
            decreases lines@.len() - i,
        {
            let line = lines[i].as_str();
            proof {
                assert(rows.take(i as int).drop_last() =~= rows.take(i - 1));
                assert(rows.take(i as int).last() == lines@[i as int]);
            }
            if !trim(line).is_empty() {
                match parse_transaction(line) {
                    Ok(t) => self.apply(t),
                    Err(e) => {
                        proof {
                            assert(line.spec_bytes() == encode_utf8(lines@[i as int]@));
                            assert(rows_outcome(l0, rows.take(i as int), 2) == (
                                self@,
                                Some((e, (i + 1) as int)),
                            ));
                            lemma_rows_error_sticks(l0, rows, 2, i as int);
                        }
                        return Err(LedgerErr::from_parse(e, i + 1));
                    },
                }
            }
            i += 1;
        }
        assert(rows.take(i - 1) =~= rows);
        Ok(())
    }

    /// The account of `client_id`, if there is one.
    pub fn client(&self, client_id: u16) -> (r: Option<&ClientData>)
        ensures
            match r {
                Some(c) => self@.clients.contains_key(client_id) && c@ == self@.clients[client_id],
                None => !self@.clients.contains_key(client_id),
            },
    {
        self.clients.get(&client_id)
    }

    /// How many accounts there are.
    pub fn client_count(&self) -> (r: usize)
        ensures
            r == self@.clients.len(),
    {
        assert(self@.clients.dom() =~= self.clients@.dom());
        self.clients.len()
    }

    /// The amount of the accepted event `tx`, if it is in the table of
    /// events not under dispute.
    pub fn transaction(&self, tx: u32) -> (r: Option<i64>)
        ensures
            match r {
                Some(v) => self@.transactions.contains_key(tx) && self@.transactions[tx] == v,
                None => !self@.transactions.contains_key(tx),
            },
    {
        match self.transactions.get(&tx) {
            Some(v) => Some(*v),
            None => None,
        }
    }

    /// How many events are in the table of events not under dispute.
    pub fn transaction_count(&self) -> (r: usize)
        ensures
            r == self@.transactions.len(),
    {
        self.transactions.len()
    }

    /// The statement of all accounts: a header line, then one line per
    /// account, each account once, in no particular order.
    pub fn statement(&self) -> (r: String)
        requires
            self.wf(),
        ensures
            exists|ids: Seq<u16>|
                ids.no_duplicates() && ids.to_set() == self@.clients.dom() && r@ == statement_text(
                    self@,
                    ids,
                ),
    {
        let mut s = String::new();
        s.append("client, available, held, total, locked");
        let ghost mut ids: Seq<u16> = Seq::empty();
        assert(s@ =~= statement_text(self@, ids));
        for (id, client) in it: self.clients.iter()
            invariant
                self.wf(),
                ids.len() == it.index(),
                forall|j: int| 0 <= j < ids.len() ==> ids[j] == *it.seq()[j].0,
                s@ == statement_text(self@, ids),
                it.seq().len() == self.clients@.dom().len(),
                it.seq().no_duplicates(),
                forall|j: int|
                    0 <= j < it.seq().len() ==> self.clients@.contains_key(*(#[trigger] it.seq()[j]).0)
                        && self.clients@[*it.seq()[j].0] == *it.seq()[j].1,
                ids.no_duplicates(),
                forall|j: int| 0 <= j < ids.len() ==> self@.clients.contains_key(#[trigger] ids[j]),
            ensures
                ids.len() == self.clients@.dom().len(),
        {
            assert(self.clients@.contains_key(*id) && self.clients@[*id] == *client);
            assert(!ids.contains(*id)) by {
                if ids.contains(*id) {
                    let j = choose|j: int| 0 <= j < ids.len() && ids[j] == *id;
                    assert(it.seq()[j] == it.seq()[ids.len() as int]);
                }
            }
            assert(self@.clients.contains_key(*id));
            assert(balanced(client@));
            s.append("\n");
            client.push_row(&mut s, *id);
            proof {
                let next = ids.push(*id);
                assert(next.drop_last() =~= ids);
                ids = next;
            }
            assert(s@ =~= statement_text(self@, ids));
        }
        proof {
            assert(self@.clients.dom() =~= self.clients@.dom());
            ids.unique_seq_to_set();
            lemma_subset_equality(ids.to_set(), self@.clients.dom());
        }
        s
    }
}

/// The state after the events `events`, applied in order.
pub open spec fn run_spec(l: LedgerView, events: Seq<Transaction>) -> LedgerView
    decreases events.len(),
{
    if events.len() == 0 {
        l
    } else {
        apply_spec(run_spec(l, events.drop_last()), events.last())
    }
}

/// Every event keeps every account balanced: an account's total stays its
/// available funds plus the sum of what it holds in dispute.
pub proof fn lemma_event_keeps_balance(l: LedgerView, t: Transaction)
    requires
        all_balanced(l),
    ensures
        all_balanced(apply_spec(l, t)),
{
    let m = apply_spec(l, t);
    assert forall|c: u16| #[trigger] m.clients.contains_key(c) implies balanced(m.clients[c]) by {
        match t {
            Transaction::Deposit(id, tx, a) => {
                if !l.clients.contains_key(id) && c == id {
                    assert(Map::<u32, i64>::empty().dom() =~= Set::empty());
                }
            },
            Transaction::Withdrawal(id, tx, a) => {
                if !l.clients.contains_key(id) && c == id {
                    assert(Map::<u32, i64>::empty().dom() =~= Set::empty());
                }
            },
            Transaction::Dispute(id, tx) => {
                if c == id && m != l {
                    lemma_held_sum_insert(l.clients[id].held, tx, l.transactions[tx]);
                }
            },
            Transaction::Resolve(id, tx) => {
                if c == id && m != l {
                    lemma_held_sum_remove(l.clients[id].held, tx);
                }
            },
            Transaction::Chargeback(id, tx) => {
                if c == id && m != l {
                    lemma_held_sum_remove(l.clients[id].held, tx);
                }
            },
        }
    }
}

/// From a balanced state, every account stays balanced through any run of
/// events.
pub proof fn lemma_run_keeps_balance(l: LedgerView, events: Seq<Transaction>)
    requires
        all_balanced(l),
    ensures
        all_balanced(run_spec(l, events)),
    decreases events.len(),
{
    if events.len() > 0 {
        lemma_run_keeps_balance(l, events.drop_last());
        lemma_event_keeps_balance(run_spec(l, events.drop_last()), events.last());
    }
}

/// A locked account stays, and stays locked, whatever event comes.
pub proof fn lemma_lock_is_permanent(l: LedgerView, t: Transaction, c: u16)
    requires
        l.clients.contains_key(c),
        l.clients[c].locked,
    ensures
        apply_spec(l, t).clients.contains_key(c),
        apply_spec(l, t).clients[c].locked,
{
}

/// On a locked account a deposit or withdrawal changes nothing: neither the
/// balances nor the table of events, so its tx id can never be disputed.
pub proof fn lemma_locked_refuses_insert(l: LedgerView, c: u16, tx: u32, amount: i64)
    requires
        l.clients.contains_key(c),
        l.clients[c].locked,
    ensures
        insert_spec(l, c, tx, amount) == l,
{
}

/// Once an account is locked, it stays locked through any run of events.
pub proof fn lemma_run_keeps_lock(l: LedgerView, events: Seq<Transaction>, c: u16)
    requires
        l.clients.contains_key(c),
        l.clients[c].locked,
    ensures
        run_spec(l, events).clients.contains_key(c),
        run_spec(l, events).clients[c].locked,
    decreases events.len(),
{
    if events.len() > 0 {
        lemma_run_keeps_lock(l, events.drop_last(), c);
        lemma_lock_is_permanent(run_spec(l, events.drop_last()), events.last(), c);
    }
}

/// Once an account is locked, every later deposit or withdrawal for it is a
/// no-op: its balances stay, and its tx id never enters the table of events.
pub proof fn lemma_locked_ignores_later_inserts(
    l: LedgerView,
    events: Seq<Transaction>,
    c: u16,
    i: int,
)
    requires
        l.clients.contains_key(c),
        l.clients[c].locked,
        0 <= i < events.len(),
        events[i] matches Transaction::Deposit(id, _, _) ==> id == c,
        events[i] matches Transaction::Withdrawal(id, _, _) ==> id == c,
        events[i] is Deposit || events[i] is Withdrawal,
    ensures
        run_spec(l, events.take(i + 1)) == run_spec(l, events.take(i)),
{
    lemma_run_keeps_lock(l, events.take(i), c);
    assert(events.take(i + 1).drop_last() =~= events.take(i));
    assert(events.take(i + 1).last() == events[i]);
}

/// Disputing the same event twice has effect only the first time: the
/// second dispute is a no-op.
pub proof fn lemma_dispute_idempotent(l: LedgerView, c: u16, tx: u32)
    ensures
        hold_spec(hold_spec(l, c, tx), c, tx) == hold_spec(l, c, tx),
{
}

} // verus!
