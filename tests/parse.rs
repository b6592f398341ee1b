use csv_ledger::parse::{digit, double, four_dp, parse_header, parse_transaction, ParseError, Transaction};

#[test]
fn deposit() {
    let res = parse_transaction("deposit, 1, 2, 3.1").unwrap();
    assert_eq!(res, Transaction::Deposit(1, 2, 31000));
}

#[test]
fn withdrawal() {
    let res = parse_transaction("withdrawal, 1, 2, 3.0").unwrap();
    assert_eq!(res, Transaction::Withdrawal(1, 2, 30000));
}

#[test]
fn parse_dispute() {
    let res = parse_transaction("dispute, 1, 2,").unwrap();
    assert_eq!(res, Transaction::Dispute(1, 2));
}

#[test]
fn parse_resolve() {
    let res = parse_transaction("resolve, 1, 2,").unwrap();
    assert_eq!(res, Transaction::Resolve(1, 2));
}

#[test]
fn parse_chargeback() {
    let res = parse_transaction("chargeback, 1, 2,").unwrap();
    assert_eq!(res, Transaction::Chargeback(1, 2));
}

#[test]
fn parse_ok_no_white_space() {
    let res = parse_transaction("deposit,1,2,3.0").unwrap();
    assert_eq!(res, Transaction::Deposit(1, 2, 30000));

    parse_header("type,client,tx,amount").expect("Error whilst parsing header.");
}

#[test]
fn parse_ok_with_white_space() {
    let res = parse_transaction("       deposit   ,1  ,   2,  3.0  ").unwrap();
    assert_eq!(res, Transaction::Deposit(1, 2, 30000));

    parse_header("   type    ,  client,   tx  ,    amount    ")
        .expect("Error whilst parsing header.");
}

#[test]
fn ok_no_amount() {
    let res = parse_transaction("dispute,1,2,").unwrap();
    assert_eq!(res, Transaction::Dispute(1, 2));
}

#[test]
fn parse_err_parser_runthrough() {
    parse_transaction("x").unwrap_err();
    parse_transaction("deposit,x").unwrap_err();
    parse_transaction("deposit,1,x").unwrap_err();
    parse_transaction("deposit,1,2,x").unwrap_err();
    parse_transaction(&format!("deposit,1,2,2{}", f32::MAX)).unwrap_err();

    parse_header("x").unwrap_err();
    parse_header("type,x").unwrap_err();
    parse_header("type,client,x").unwrap_err();
    parse_header("type,client,tx,x").unwrap_err();
}

#[test]
fn err_invalid_u16() {
    parse_transaction("deposit,65536,2,3.0").unwrap_err();
}

#[test]
fn err_invalid_deposit() {
    parse_transaction("deposit,1,2,").unwrap_err();
}

#[test]
fn err_dispute_missing_value() {
    parse_transaction("dispute,1,").unwrap_err();
}

#[test]
fn err_withdrawal_missing_value() {
    let res = parse_transaction("withdrawal,1,2,").unwrap_err();
    assert_eq!(res, ParseError::Failure);
}

#[test]
fn err_deposit_missing_value() {
    let res = parse_transaction("deposit,1,2,").unwrap_err();
    assert_eq!(res, ParseError::Failure);
}

#[test]
fn err_dispute_extra_value() {
    let res = parse_transaction("dispute,1,2,3.0").unwrap_err();
    assert_eq!(res, ParseError::Failure);
}

#[test]
fn parse_err_extra_value() {
    parse_transaction("withdrawal,1,2,3.0,foo").unwrap_err();
    parse_header("type,client,tx,amount,foo").unwrap_err();
}

#[test]
fn parse_ok() {
    let value = four_dp("1").unwrap().1;
    assert_eq!(value, 10000);
}

#[test]
fn ok_one_sig_fig() {
    let value = four_dp("1.1").unwrap().1;
    assert_eq!(value, 11000);
}

#[test]
fn ok_four_sig_fig() {
    let value = four_dp("1.1111").unwrap().1;
    assert_eq!(value, 11111);
}

#[test]
fn parse_err_runthrough() {
    four_dp("").unwrap_err();
    four_dp("1.").unwrap_err();
}

#[test]
fn parse_debug() {
    assert_eq!(format!("{:?}", Transaction::Deposit(1, 1, 2)), "Deposit(1, 1, 2)");
    assert_eq!(format!("{:?}", Transaction::Withdrawal(1, 1, 2)), "Withdrawal(1, 1, 2)");
    assert_eq!(format!("{:?}", Transaction::Dispute(1, 1)), "Dispute(1, 1)");
    assert_eq!(format!("{:?}", Transaction::Resolve(1, 1)), "Resolve(1, 1)");
    assert_eq!(format!("{:?}", Transaction::Chargeback(1, 1)), "Chargeback(1, 1)");
}

#[test]
fn partial_eq() {
    assert_eq!(Transaction::Deposit(1, 1, 20), Transaction::Deposit(1, 1, 20));
    assert_eq!(Transaction::Withdrawal(1, 1, 20), Transaction::Withdrawal(1, 1, 20));
    assert_eq!(Transaction::Dispute(1, 1), Transaction::Dispute(1, 1));
    assert_eq!(Transaction::Resolve(1, 1), Transaction::Resolve(1, 1));
    assert_eq!(Transaction::Chargeback(1, 1), Transaction::Chargeback(1, 1));
}

#[test]
fn err_invalid_input() {
    parse_header("client,type,ammount,tx").unwrap_err();
}

#[test]
fn err_missing_value() {
    parse_header("type,client,tx,").unwrap_err();
}

#[test]
fn header_missing_amount_is_incomplete() {
    assert_eq!(parse_header("type,client,tx"), Err(ParseError::Incomplete));
    assert_eq!(parse_header("type,client,tx,"), Err(ParseError::Incomplete));
}

#[test]
fn error_kinds() {
    assert_eq!(parse_transaction(""), Err(ParseError::Incomplete));
    assert_eq!(parse_transaction("dispute,1,"), Err(ParseError::Incomplete));
    assert_eq!(parse_transaction("x"), Err(ParseError::Malformed));
    assert_eq!(parse_transaction("deposit;1,2,3"), Err(ParseError::Malformed));
    assert_eq!(parse_transaction("deposit,x,2,3"), Err(ParseError::Malformed));
    assert_eq!(parse_transaction("deposit,1,2,3.0 x"), Err(ParseError::Failure));
    assert_eq!(parse_transaction("dispute,1,2,x"), Err(ParseError::Failure));
    assert_eq!(parse_header("type,client,tx,amount x"), Err(ParseError::Failure));
}

#[test]
fn id_limits() {
    assert_eq!(
        parse_transaction("resolve,65535,4294967295,"),
        Ok(Transaction::Resolve(65535, 4294967295))
    );
    assert_eq!(parse_transaction("resolve,1,4294967296,"), Err(ParseError::Failure));
    assert_eq!(parse_transaction("deposit,65536,2,3.0"), Err(ParseError::Failure));
    assert_eq!(parse_transaction("dispute,007,0009,"), Ok(Transaction::Dispute(7, 9)));
}

#[test]
fn fraction_scaling() {
    assert_eq!(four_dp("1.05"), Ok((4, 10500)));
    assert_eq!(four_dp("0.0001"), Ok((6, 1)));
    assert_eq!(four_dp("113.1112"), Ok((8, 1131112)));
    assert_eq!(four_dp("2.5x"), Ok((3, 25000)));
    assert_eq!(four_dp("1.12345"), Ok((6, 11234)));
    assert_eq!(parse_transaction("deposit,1,2,1.12345"), Err(ParseError::Failure));
}

#[test]
fn amount_limits() {
    assert_eq!(four_dp("922337203685477.5807"), Ok((20, i64::MAX)));
    assert_eq!(four_dp("922337203685477.5808"), Err(ParseError::Failure));
    assert_eq!(four_dp("922337203685478"), Err(ParseError::Failure));
    assert_eq!(four_dp("99999999999999999999"), Err(ParseError::Failure));
    assert_eq!(four_dp("x"), Err(ParseError::Malformed));
    assert_eq!(four_dp(""), Err(ParseError::Incomplete));
}

#[test]
fn double_reads_digits() {
    assert_eq!(double("123abc", None), Ok((3, 123)));
    assert_eq!(double("12345", Some(4)), Ok((4, 1234)));
    assert_eq!(double("abc", None), Err(ParseError::Malformed));
    assert_eq!(double("9223372036854775808", None), Err(ParseError::Failure));
}

#[test]
fn digit_accepts_only_decimal_digits() {
    assert!(digit('0'));
    assert!(digit('9'));
    assert!(!digit('a'));
    assert!(!digit('/'));
}
