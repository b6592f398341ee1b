use csv_ledger::account::ClientData;
use csv_ledger::amount::dp_string;
use csv_ledger::ledger::{validate_header, Ledger};
use csv_ledger::parse::{four_dp, ParseError};
use csv_ledger::LedgerErr;

fn lines_of(text: &str) -> Vec<String> {
    text.lines().map(String::from).collect()
}

fn parse_line(r: Result<(), LedgerErr>) -> Option<(String, usize)> {
    match r {
        Err(LedgerErr::Parse(m, n)) => Some((m, n)),
        _ => None,
    }
}

#[test]
fn test_dp_string() {
    assert_eq!(dp_string(0), "0.0000");
    assert_eq!(dp_string(1), "0.0001");
    assert_eq!(dp_string(10), "0.0010");
    assert_eq!(dp_string(100), "0.0100");
    assert_eq!(dp_string(1000), "0.1000");
    assert_eq!(dp_string(10000), "1.0000");
}

#[test]
fn ledger_ok() {
    validate_header("type, client, tx, amount").unwrap();
}

#[test]
fn ledger_err_runthrough() {
    validate_header("").unwrap_err();
    validate_header("\n").unwrap_err();
    validate_header("type,").unwrap_err();
}

#[test]
fn ledger_debug() {
    let data = ClientData::new(10);
    assert_eq!(
        format!("{:?}", data),
        "ClientData { held: {}, available: 10, total: 10, locked: false }"
    );
    assert_eq!(
        format!("{:?}", Ledger::default()),
        "Ledger { clients: {}, transactions: {} }"
    );
}

#[test]
fn ok_consume() {
    let mut ledger = Ledger::default();

    ledger
        .consume_csv(&lines_of(
            "type, client, tx, amount
                
                deposit, 1, 1, 20.0
                withdrawal,1,2,10.0
                dispute,1,2,
                resolve,1,2,
            
                deposit,2,3,113.1112
                dispute,2,3,
                chargeback,2,3,
                
                ",
        ))
        .unwrap();

    let result = ledger.statement();
    let mut lines = result.lines();

    assert_eq!(lines.next().unwrap(), "client, available, held, total, locked");

    let accounts = vec![
        "1, 10.0000, 0.0000, 10.0000, false",
        "2, 0.0000, 0.0000, 0.0000, true",
    ];

    assert!(accounts.contains(&lines.next().unwrap()));
    assert!(accounts.contains(&lines.next().unwrap()));
    assert!(lines.next().is_none())
}

#[test]
fn err_consume_runthrough() {
    let mut ledger = Ledger::default();

    ledger.consume_csv(&lines_of("")).unwrap_err();
    ledger.consume_csv(&lines_of("\0")).unwrap_err();
    ledger
        .consume_csv(&lines_of("type, client, tx, amount\n123"))
        .unwrap_err();
}

#[test]
fn insert_transaction() {
    let mut ledger = Ledger::default();
    // Client 2 starts locked with nothing in it.
    ledger.insert_transaction(2, 100, 0);
    ledger.hold(2, 100);
    ledger.chageback(2, 100);
    assert!(ledger.client(2).unwrap().locked());

    ledger.insert_transaction(1, 1, 1);
    ledger.insert_transaction(1, 2, 1);

    // Locked
    ledger.insert_transaction(2, 3, 1);

    let client_1 = ledger.client(1).unwrap();
    let client_2 = ledger.client(2).unwrap();
    assert_eq!(client_1.available(), 2);
    assert_eq!(client_2.available(), 0);
    assert_eq!(client_1.total(), 2);
    assert_eq!(client_2.total(), 0);
}

#[test]
fn ledger_dispute() {
    let mut ledger = Ledger::default();

    ledger.insert_transaction(1, 1, 1);
    ledger.hold(1, 1);
    ledger.hold(2, 1);
    ledger.hold(1, 2);

    let c = ledger.client(1).unwrap();

    assert_eq!(ledger.client_count(), 1);
    assert_eq!(c.disputed(1).unwrap(), 1_i64);
    assert_eq!(c.available(), 0_i64);
}

#[test]
fn ledger_resolve() {
    let mut ledger = Ledger::default();

    ledger.insert_transaction(1, 1, 1);
    ledger.hold(1, 1);
    ledger.resolve(1, 1);
    ledger.resolve(2, 1);
    ledger.resolve(1, 2);

    let c = ledger.client(1).unwrap();
    assert_eq!(c.disputed_count(), 0);
    assert_eq!(c.available(), 1_i64);
}

#[test]
fn ledger_chargeback() {
    let mut ledger = Ledger::default();

    ledger.insert_transaction(1, 1, 1);
    ledger.hold(1, 1);
    ledger.chageback(1, 1);
    ledger.chageback(2, 1);
    ledger.chageback(1, 2);

    let c = ledger.client(1).unwrap();
    assert_eq!(c.disputed_count(), 0);
    assert_eq!(c.total(), 0_i64);
    assert_eq!(c.locked(), true);
}

#[test]
fn ledger_display() {
    let mut ledger = Ledger::default();
    ledger.insert_transaction(1, 1, 1);
    assert_eq!(
        ledger.statement(),
        "client, available, held, total, locked\n1, 0.0001, 0.0000, 0.0001, false"
    );
}

#[test]
fn from_parse() {
    let cases = [
        (ParseError::Incomplete, "Input was incomplete"),
        (ParseError::Failure, "Faliure whilst parsing input"),
        (ParseError::Malformed, "Input was in the wrong format"),
    ];
    for (err, msg) in cases {
        match LedgerErr::from_parse(err, 1) {
            LedgerErr::Parse(m, n) => {
                assert_eq!(m, msg);
                assert_eq!(n, 1);
            }
            other => panic!("unexpected {:?}", other),
        }
    }
}

#[test]
fn lib_debug() {
    let err = LedgerErr::Opening(std::io::Error::new(
        std::io::ErrorKind::NotFound,
        "File not found",
    ));
    assert_eq!(
        format!("{:?}", err),
        "Opening(Custom { kind: NotFound, error: \"File not found\" })",
    );
}

#[test]
fn scenario_dispute_then_resolve() {
    let mut ledger = Ledger::default();
    ledger
        .consume_csv(&lines_of(
            "type,client,tx,amount\ndeposit,1,1,20.0\nwithdrawal,1,2,10.0\ndispute,1,2,\nresolve,1,2,",
        ))
        .unwrap();
    let c = ledger.client(1).unwrap();
    assert_eq!(c.available(), 100000);
    assert_eq!(c.held(), 0);
    assert_eq!(c.total(), 100000);
    assert!(!c.locked());
    assert_eq!(
        ledger.statement(),
        "client, available, held, total, locked\n1, 10.0000, 0.0000, 10.0000, false"
    );
}

#[test]
fn scenario_dispute_then_chargeback() {
    let mut ledger = Ledger::default();
    ledger
        .consume_csv(&lines_of(
            "type,client,tx,amount\ndeposit,2,3,113.1112\ndispute,2,3,\nchargeback,2,3,",
        ))
        .unwrap();
    assert_eq!(
        ledger.statement(),
        "client, available, held, total, locked\n2, 0.0000, 0.0000, 0.0000, true"
    );
}

#[test]
fn scenario_smallest_amount() {
    let mut ledger = Ledger::default();
    ledger
        .consume_csv(&lines_of("type,client,tx,amount\ndeposit,1,1,0.0001"))
        .unwrap();
    let statement = ledger.statement();
    assert_eq!(statement.lines().nth(1), Some("1, 0.0001, 0.0000, 0.0001, false"));
}

#[test]
fn scenario_header_without_amount() {
    let mut ledger = Ledger::default();
    let r = ledger.consume_csv(&lines_of("type,client,tx\ndeposit,1,1,5.0"));
    assert_eq!(parse_line(r), Some((String::from("Input was incomplete"), 1)));
    assert_eq!(ledger.client_count(), 0);
    assert_eq!(ledger.transaction_count(), 0);
}

#[test]
fn scenario_dispute_of_unknown_event() {
    let mut ledger = Ledger::default();
    ledger
        .consume_csv(&lines_of("type,client,tx,amount\ndispute,9,99,"))
        .unwrap();
    assert_eq!(ledger.client_count(), 0);
    assert_eq!(ledger.transaction_count(), 0);
    assert!(ledger.client(9).is_none());
}

#[test]
fn error_reports_line_and_keeps_earlier_events() {
    let mut ledger = Ledger::default();
    let r = ledger.consume_csv(&lines_of(
        "type,client,tx,amount\n\ndeposit,1,1,2.0\ndeposit,1,2\ndeposit,1,3,4.0",
    ));
    assert_eq!(parse_line(r), Some((String::from("Input was incomplete"), 4)));
    assert_eq!(ledger.client(1).unwrap().total(), 20000);
    assert!(ledger.transaction(3).is_none());
}

#[test]
fn white_space_lines_are_skipped() {
    let mut ledger = Ledger::default();
    let lines = vec![
        String::from("type,client,tx,amount"),
        String::from("   \t"),
        String::from("\u{a0}\u{3000}"),
        String::from("deposit,1,1,1.5"),
    ];
    ledger.consume_csv(&lines).unwrap();
    assert_eq!(ledger.client(1).unwrap().available(), 15000);

    let mut other = Ledger::default();
    let bad = vec![String::from("type,client,tx,amount"), String::from("\u{a0}x")];
    let r = other.consume_csv(&bad);
    assert_eq!(parse_line(r), Some((String::from("Input was in the wrong format"), 2)));
}

#[test]
fn balances_stay_consistent() {
    let mut ledger = Ledger::default();
    ledger.insert_transaction(1, 1, 50000);
    ledger.insert_transaction(1, 2, -20000);
    ledger.insert_transaction(1, 3, 7000);
    ledger.hold(1, 1);
    ledger.hold(1, 2);
    let c = ledger.client(1).unwrap();
    assert_eq!(c.held(), 30000);
    assert_eq!(c.total() as i128, c.available() as i128 + c.held());
    ledger.resolve(1, 2);
    ledger.chageback(1, 1);
    let c = ledger.client(1).unwrap();
    assert_eq!(c.total() as i128, c.available() as i128 + c.held());
    assert_eq!(c.available(), -13000);
    assert_eq!(c.total(), -13000);
    assert!(c.locked());
}

#[test]
fn locked_account_refuses_new_events() {
    let mut ledger = Ledger::default();
    ledger.insert_transaction(1, 1, 10000);
    ledger.hold(1, 1);
    ledger.chageback(1, 1);
    ledger.insert_transaction(1, 2, 5000);
    ledger.insert_transaction(1, 3, -5000);
    let c = ledger.client(1).unwrap();
    assert!(c.locked());
    assert_eq!(c.available(), 0);
    assert_eq!(c.total(), 0);
    assert!(ledger.transaction(2).is_none());
    assert!(ledger.transaction(3).is_none());
    ledger.hold(1, 2);
    assert_eq!(ledger.client(1).unwrap().disputed_count(), 0);
}

#[test]
fn amount_text_reads_back() {
    for a in [0_i64, 1, 10, 9999, 10000, 11000, 11111, 1131112, 123456789, i64::MAX] {
        let text = dp_string(a);
        assert_eq!(four_dp(&text), Ok((text.len(), a)));
    }
}

#[test]
fn dispute_twice_is_a_no_op() {
    let mut ledger = Ledger::default();
    ledger.insert_transaction(1, 1, 10000);
    ledger.hold(1, 1);
    ledger.hold(1, 1);
    let c = ledger.client(1).unwrap();
    assert_eq!(c.available(), 0);
    assert_eq!(c.held(), 10000);
    assert_eq!(c.disputed_count(), 1);
}

#[test]
fn negative_amount_text() {
    assert_eq!(dp_string(-15000), "-1.5000");
    assert_eq!(dp_string(-5000), "0.5000");
    assert_eq!(dp_string(i64::MIN), "-922337203685477.5808");
}

#[test]
fn overflowing_event_is_ignored() {
    let mut ledger = Ledger::default();
    ledger.insert_transaction(1, 1, i64::MAX);
    ledger.insert_transaction(1, 2, 1);
    let c = ledger.client(1).unwrap();
    assert_eq!(c.total(), i64::MAX);
    assert!(ledger.transaction(2).is_none());
}

#[test]
fn reused_tx_id_under_dispute_cannot_be_disputed_again() {
    let mut ledger = Ledger::default();
    ledger.insert_transaction(1, 1, 10000);
    ledger.hold(1, 1);
    ledger.insert_transaction(1, 1, 5000);
    ledger.hold(1, 1);
    let c = ledger.client(1).unwrap();
    assert_eq!(c.disputed(1), Some(10000));
    assert_eq!(c.total() as i128, c.available() as i128 + c.held());
    assert_eq!(ledger.transaction(1), Some(5000));
}
