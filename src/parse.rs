//! Decoding of the textual rows: the header check and one event per data row.
//!
//! The grammar is stated over the UTF-8 bytes of a line by the spec functions
//! below; each decoding function is proved to return exactly what they give.
use vstd::prelude::*;
use vstd::string::StringSliceAdditionalSpecFns;

verus! {

/// A decoded row of the event stream: client id, tx id and, for deposits and
/// withdrawals, the amount in ten-thousandths.
#[derive(Debug, PartialEq, Eq, Structural, Clone, Copy)]
pub enum Transaction {
    Deposit(u16, u32, i64),
    Withdrawal(u16, u32, i64),
    Dispute(u16, u32),
    Resolve(u16, u32),
    Chargeback(u16, u32),
}

/// Why a line was rejected.
#[derive(Debug, PartialEq, Eq, Structural, Clone, Copy)]
pub enum ParseError {
    /// The line ended where the grammar needed more.
    Incomplete,
    /// A byte was present that the grammar does not allow at that place.
    Malformed,
    /// A hard violation: a missing or forbidden amount, trailing text, or a
    /// number out of range.
    Failure,
}

pub const TAB: u8 = 9;

pub const LINE_FEED: u8 = 10;

pub const CARRIAGE_RETURN: u8 = 13;

pub const SPACE: u8 = 32;

pub const COMMA: u8 = 44;

pub const DOT: u8 = 46;

pub const ZERO: u8 = 48;

pub const NINE: u8 = 57;

pub open spec fn is_space(b: u8) -> bool {
    b == SPACE || b == TAB || b == LINE_FEED || b == CARRIAGE_RETURN
}

pub open spec fn is_digit(b: u8) -> bool {
    ZERO <= b <= NINE
}

/// The first position at or after `i` that does not hold white space.
pub open spec fn skip_space(s: Seq<u8>, i: int) -> int
    decreases s.len() - i,
{
    if 0 <= i < s.len() && is_space(s[i]) {
        skip_space(s, i + 1)
    } else {
        i
    }
}

/// The end of the run of digits that starts at `i`.
pub open spec fn digits_end(s: Seq<u8>, i: int) -> int
    decreases s.len() - i,
{
    if 0 <= i < s.len() && is_digit(s[i]) {
        digits_end(s, i + 1)
    } else {
        i
    }
}

/// The decimal value of the digits `s[i..j]`.
pub open spec fn digits_value(s: Seq<u8>, i: int, j: int) -> nat
    decreases j - i,
{
    if j <= i {
        0
    } else {
        digits_value(s, i, j - 1) * 10 + (s[j - 1] - ZERO) as nat
    }
}

/// The error for a token that is not at `i`: the line may simply have ended.
pub open spec fn lacking(s: Seq<u8>, i: int) -> ParseError {
    if i >= s.len() {
        ParseError::Incomplete
    } else {
        ParseError::Malformed
    }
}

pub open spec fn has_byte(s: Seq<u8>, i: int, b: u8) -> bool {
    0 <= i < s.len() && s[i] == b
}

pub open spec fn matches_at(s: Seq<u8>, i: int, t: Seq<u8>) -> bool {
    0 <= i && i + t.len() <= s.len() && s.subrange(i, i + t.len()) == t
}

/// A run of one or more digits at `i` (at most `max` of them when given)
/// whose value is at most `limit`: the position after it, and its value.
pub open spec fn number_spec(s: Seq<u8>, i: int, max: Option<usize>, limit: int) -> Result<
    (int, int),
    ParseError,
> {
    let run = digits_end(s, i);
    let end = match max {
        Some(m) => if run <= i + m {
            run
        } else {
            i + m
        },
        None => run,
    };
    if end == i {
        Err(lacking(s, i))
    } else if digits_value(s, i, end) > limit {
        Err(ParseError::Failure)
    } else {
        Ok((end, digits_value(s, i, end) as int))
    }
}

/// What one to four fractional digits are worth once scaled to four places.
pub open spec fn fraction_weight(digits: int) -> int {
    if digits == 1 {
        1000
    } else if digits == 2 {
        100
    } else if digits == 3 {
        10
    } else {
        1
    }
}

/// An amount at `i`: digits, then optionally `.` and one to four digits.
/// The result is the position after it and the amount in ten-thousandths,
/// which must fit in an `i64`.
pub open spec fn four_dp_spec(s: Seq<u8>, i: int) -> Result<(int, int), ParseError> {
    match number_spec(s, i, None, i64::MAX as int) {
        Err(e) => Err(e),
        Ok((q, whole)) => if has_byte(s, q, DOT) {
            match number_spec(s, q + 1, Some(4), i64::MAX as int) {
                Err(e) => Err(e),
                Ok((f, frac)) => {
                    let v = whole * 10000 + frac * fraction_weight(f - q - 1);
                    if v > i64::MAX {
                        Err(ParseError::Failure)
                    } else {
                        Ok((f, v))
                    }
                },
            }
        } else if whole * 10000 > i64::MAX {
            Err(ParseError::Failure)
        } else {
            Ok((q, whole * 10000))
        },
    }
}

pub open spec fn kw_deposit() -> Seq<u8> {
    seq![100u8, 101, 112, 111, 115, 105, 116]
}

pub open spec fn kw_withdrawal() -> Seq<u8> {
    seq![119u8, 105, 116, 104, 100, 114, 97, 119, 97, 108]
}

pub open spec fn kw_dispute() -> Seq<u8> {
    seq![100u8, 105, 115, 112, 117, 116, 101]
}

pub open spec fn kw_resolve() -> Seq<u8> {
    seq![114u8, 101, 115, 111, 108, 118, 101]
}

pub open spec fn kw_chargeback() -> Seq<u8> {
    seq![99u8, 104, 97, 114, 103, 101, 98, 97, 99, 107]
}

pub open spec fn kw_type() -> Seq<u8> {
    seq![116u8, 121, 112, 101]
}

pub open spec fn kw_client() -> Seq<u8> {
    seq![99u8, 108, 105, 101, 110, 116]
}

pub open spec fn kw_tx() -> Seq<u8> {
    seq![116u8, 120]
}

pub open spec fn kw_amount() -> Seq<u8> {
    seq![97u8, 109, 111, 117, 110, 116]
}

/// The keyword of each kind of event: 0 deposit, 1 withdrawal, 2 dispute,
/// 3 resolve, 4 chargeback.
pub open spec fn keyword(k: int) -> Seq<u8> {
    if k == 0 {
        kw_deposit()
    } else if k == 1 {
        kw_withdrawal()
    } else if k == 2 {
        kw_dispute()
    } else if k == 3 {
        kw_resolve()
    } else {
        kw_chargeback()
    }
}

/// The kind whose keyword stands at `i`, if any.
pub open spec fn keyword_at(s: Seq<u8>, i: int) -> Option<int> {
    if matches_at(s, i, kw_deposit()) {
        Some(0)
    } else if matches_at(s, i, kw_withdrawal()) {
        Some(1)
    } else if matches_at(s, i, kw_dispute()) {
        Some(2)
    } else if matches_at(s, i, kw_resolve()) {
        Some(3)
    } else if matches_at(s, i, kw_chargeback()) {
        Some(4)
    } else {
        None
    }
}

/// White space, a keyword, white space, a comma: the kind and the position
/// after the comma.
pub open spec fn head_spec(s: Seq<u8>) -> Result<(int, int), ParseError> {
    let p = skip_space(s, 0);
    match keyword_at(s, p) {
        None => Err(lacking(s, p)),
        Some(k) => {
            let q = skip_space(s, p + keyword(k).len());
            if has_byte(s, q, COMMA) {
                Ok((k, q + 1))
            } else {
                Err(lacking(s, q))
            }
        },
    }
}

/// White space, a number no larger than `limit`, white space, a comma: the
/// position after the comma and the number.
pub open spec fn field_spec(s: Seq<u8>, i: int, limit: int) -> Result<(int, int), ParseError> {
    let p = skip_space(s, i);
    match number_spec(s, p, None, limit) {
        Err(e) => Err(e),
        Ok((e, v)) => {
            let q = skip_space(s, e);
            if has_byte(s, q, COMMA) {
                Ok((q + 1, v))
            } else {
                Err(lacking(s, q))
            }
        },
    }
}

/// The rest of a row after its third comma: only white space (no amount), or
/// an amount with white space around it and nothing else.
pub open spec fn amount_field_spec(s: Seq<u8>, i: int) -> Result<Option<int>, ParseError> {
    let p = skip_space(s, i);
    if p >= s.len() {
        Ok(None)
    } else {
        match four_dp_spec(s, p) {
            Ok((e, v)) => if skip_space(s, e) >= s.len() {
                Ok(Some(v))
            } else {
                Err(ParseError::Failure)
            },
            Err(_) => Err(ParseError::Failure),
        }
    }
}

/// The event of kind `k`: deposits and withdrawals need an amount, the other
/// kinds refuse one.
pub open spec fn event_of(k: int, client: int, tx: int, amount: Option<int>) -> Result<
    Transaction,
    ParseError,
> {
    match amount {
        Some(v) => if k == 0 {
            Ok(Transaction::Deposit(client as u16, tx as u32, v as i64))
        } else if k == 1 {
            Ok(Transaction::Withdrawal(client as u16, tx as u32, v as i64))
        } else {
            Err(ParseError::Failure)
        },
        None => if k == 2 {
            Ok(Transaction::Dispute(client as u16, tx as u32))
        } else if k == 3 {
            Ok(Transaction::Resolve(client as u16, tx as u32))
        } else if k == 4 {
            Ok(Transaction::Chargeback(client as u16, tx as u32))
        } else {
            Err(ParseError::Failure)
        },
    }
}

/// The decoding of one data row.
pub open spec fn transaction_spec(s: Seq<u8>) -> Result<Transaction, ParseError> {
    match head_spec(s) {
        Err(e) => Err(e),
        Ok((k, p)) => match field_spec(s, p, u16::MAX as int) {
            Err(e) => Err(e),
            Ok((p, client)) => match field_spec(s, p, u32::MAX as int) {
                Err(e) => Err(e),
                Ok((p, tx)) => match amount_field_spec(s, p) {
                    Err(e) => Err(e),
                    Ok(amount) => event_of(k, client, tx, amount),
                },
            },
        },
    }
}

/// White space, the name `t`, white space: the position after it.
pub open spec fn name_spec(s: Seq<u8>, i: int, t: Seq<u8>) -> Result<int, ParseError> {
    let p = skip_space(s, i);
    if matches_at(s, p, t) {
        Ok(skip_space(s, p + t.len()))
    } else {
        Err(lacking(s, p))
    }
}

/// A column name followed by a comma: the position after the comma.
pub open spec fn column_spec(s: Seq<u8>, i: int, t: Seq<u8>) -> Result<int, ParseError> {
    match name_spec(s, i, t) {
        Err(e) => Err(e),
        Ok(p) => if has_byte(s, p, COMMA) {
            Ok(p + 1)
        } else {
            Err(lacking(s, p))
        },
    }
}

/// The header: `type`, `client`, `tx`, `amount` in that order, separated by
/// commas, white space allowed around each name, nothing after the last.
pub open spec fn header_spec(s: Seq<u8>) -> Result<(), ParseError> {
    match column_spec(s, 0, kw_type()) {
        Err(e) => Err(e),
        Ok(p) => match column_spec(s, p, kw_client()) {
            Err(e) => Err(e),
            Ok(p) => match column_spec(s, p, kw_tx()) {
                Err(e) => Err(e),
                Ok(p) => match name_spec(s, p, kw_amount()) {
                    Err(e) => Err(e),
                    Ok(p) => if p < s.len() {
                        Err(ParseError::Failure)
                    } else {
                        Ok(())
                    },
                },
            },
        },
    }
}

/// Whether `r` is the executable form of the spec result `spec`.
pub open spec fn same_outcome(r: Result<(usize, i64), ParseError>, spec: Result<(int, int), ParseError>) -> bool {
    match r {
        Ok((e, v)) => spec == Ok::<(int, int), ParseError>((e as int, v as int)),
        Err(k) => spec == Err::<(int, int), ParseError>(k),
    }
}

proof fn lemma_digits_end_bounds(s: Seq<u8>, i: int)
    requires
        0 <= i <= s.len(),
    ensures
        i <= digits_end(s, i) <= s.len(),
    decreases s.len() - i,
{
    if i < s.len() && is_digit(s[i]) {
        lemma_digits_end_bounds(s, i + 1);
    }
}

proof fn lemma_skip_space_bounds(s: Seq<u8>, i: int)
    requires
        0 <= i <= s.len(),
    ensures
        i <= skip_space(s, i) <= s.len(),
    decreases s.len() - i,
{
    if i < s.len() && is_space(s[i]) {
        lemma_skip_space_bounds(s, i + 1);
    }
}

/// Over a run of digits the value only grows as more digits are read.
proof fn lemma_digits_value_grows(s: Seq<u8>, i: int, k: int, j: int)
    requires
        i <= k <= j <= s.len(),
        0 <= i,
        forall|m: int| i <= m < j ==> is_digit(#[trigger] s[m]),
    ensures
        digits_value(s, i, k) <= digits_value(s, i, j),
    decreases j - k,
{
    if k < j {
        lemma_digits_value_grows(s, i, k, j - 1);
    }
}

/// Every digit of the run starting at `i` lies before its end.
proof fn lemma_digits_run(s: Seq<u8>, i: int, m: int)
    requires
        0 <= i <= m < digits_end(s, i),
        digits_end(s, i) <= s.len(),
    ensures
        is_digit(s[m]),
    decreases m - i,
{
    if i < m {
        lemma_digits_run(s, i + 1, m);
    }
}

fn skip_space_at(s: &[u8], i: usize) -> (r: usize)
    requires
        i <= s@.len(),
    ensures
        r == skip_space(s@, i as int),
        i <= r <= s@.len(),
{
    let mut k = i;
    while k < s.len() && (s[k] == SPACE || s[k] == TAB || s[k] == LINE_FEED || s[k]
        == CARRIAGE_RETURN)
        invariant
            i <= k <= s@.len(),
            skip_space(s@, i as int) == skip_space(s@, k as int),
        decreases s@.len() - k,
    {
        k += 1;
    }
    k
}

fn number_at(s: &[u8], i: usize, max: Option<usize>, limit: u64) -> (r: Result<
    (usize, u64),
    ParseError,
>)
    requires
        i <= s@.len(),
    ensures
        match r {
            Ok((e, v)) => number_spec(s@, i as int, max, limit as int) == Ok::<
                (int, int),
                ParseError,
            >((e as int, v as int)),
            Err(k) => number_spec(s@, i as int, max, limit as int) == Err::<
                (int, int),
                ParseError,
            >(k),
        },
{
    let mut k = i;
    let mut v: u128 = 0;
    proof {
        lemma_digits_end_bounds(s@, i as int);
    }
    let cap: usize = match max {
        Some(m) => m,
        None => s.len() - i,
    };
    while k < s.len() && ZERO <= s[k] && s[k] <= NINE && k - i < cap
        invariant
            i <= k <= s@.len(),
            digits_end(s@, i as int) == digits_end(s@, k as int),
            forall|m: int| i <= m < k ==> is_digit(#[trigger] s@[m]),
            v == digits_value(s@, i as int, k as int),
            v <= limit,
            k - i <= cap,
            max matches Some(m) ==> cap == m,
            max is None ==> cap == s@.len() - i,
        decreases s@.len() - k,
    {
        v = v * 10 + (s[k] - ZERO) as u128;
        k += 1;
        if v > limit as u128 {
            proof {
                lemma_digits_end_bounds(s@, k as int);
                let run = digits_end(s@, i as int);
                let end = match max {
                    Some(m) => if run <= i + m {
                        run
                    } else {
                        i + m
                    },
                    None => run,
                };
                assert forall|m: int| i <= m < end implies is_digit(#[trigger] s@[m]) by {
                    lemma_digits_run(s@, i as int, m);
                }
                lemma_digits_value_grows(s@, i as int, k as int, end);
            }
            return Err(ParseError::Failure);
        }
    }
    proof {
        lemma_digits_end_bounds(s@, k as int);
    }
    if k == i {
        return Err(if i >= s.len() {
            ParseError::Incomplete
        } else {
            ParseError::Malformed
        });
    }
    Ok((k, v as u64))
}

fn four_dp_at(s: &[u8], i: usize) -> (r: Result<(usize, i64), ParseError>)
    requires
        i <= s@.len(),
    ensures
        same_outcome(r, four_dp_spec(s@, i as int)),
        r matches Ok((e, v)) ==> i < e <= s@.len() && v >= 0,
{
    let limit = i64::MAX as u64;
    let (q, whole) = match number_at(s, i, None, limit) {
        Err(e) => return Err(e),
        Ok(p) => p,
    };
    proof {
        lemma_digits_end_bounds(s@, i as int);
    }
    if q < s.len() && s[q] == DOT {
        let (f, frac) = match number_at(s, q + 1, Some(4), limit) {
            Err(e) => return Err(e),
            Ok(p) => p,
        };
        proof {
            lemma_digits_end_bounds(s@, q + 1);
        }
        let digits = f - q - 1;
        let weight: u128 = if digits == 1 {
            1000
        } else if digits == 2 {
            100
        } else if digits == 3 {
            10
        } else {
            1
        };
        assert(weight == fraction_weight(digits as int));
        let v: u128 = whole as u128 * 10000 + frac as u128 * weight;
        if v > i64::MAX as u128 {
            return Err(ParseError::Failure);
        }
        Ok((f, v as i64))
    } else {
        let v: u128 = whole as u128 * 10000;
        if v > i64::MAX as u128 {
            return Err(ParseError::Failure);
        }
        Ok((q, v as i64))
    }
}

fn tag_at(s: &[u8], i: usize, t: &[u8]) -> (r: bool)
    ensures
        r == matches_at(s@, i as int, t@),
        r ==> i + t.len() <= s.len(),
{
    if t.len() > s.len() || i > s.len() - t.len() {
        return false;
    }
    let mut j: usize = 0;
    while j < t.len()
        invariant
            j <= t@.len(),
            i + t@.len() <= s@.len(),
            i + t.len() <= s.len(),
            forall|m: int| 0 <= m < j ==> s@[i + m] == t@[m],
        decreases t@.len() - j,
    {
        if s[i + j] != t[j] {
            assert(s@.subrange(i as int, i + t@.len())[j as int] != t@[j as int]);
            return false;
        }
        j += 1;
    }
    assert(s@.subrange(i as int, i + t@.len()) =~= t@);
    true
}

/// The kind whose keyword stands at `i`, and the position after it.
fn keyword_at_exec(s: &[u8], i: usize) -> (r: Option<(u8, usize)>)
    requires
        i <= s@.len(),
    ensures
        match r {
            Some((k, e)) => keyword_at(s@, i as int) == Some(k as int) && e == i + keyword(
                k as int,
            ).len() && e <= s@.len(),
            None => keyword_at(s@, i as int) is None,
        },
{
    let deposit: [u8; 7] = [100, 101, 112, 111, 115, 105, 116];
    let withdrawal: [u8; 10] = [119, 105, 116, 104, 100, 114, 97, 119, 97, 108];
    let dispute: [u8; 7] = [100, 105, 115, 112, 117, 116, 101];
    let resolve: [u8; 7] = [114, 101, 115, 111, 108, 118, 101];
    let chargeback: [u8; 10] = [99, 104, 97, 114, 103, 101, 98, 97, 99, 107];
    assert(deposit@ =~= kw_deposit());
    assert(withdrawal@ =~= kw_withdrawal());
    assert(dispute@ =~= kw_dispute());
    assert(resolve@ =~= kw_resolve());
    assert(chargeback@ =~= kw_chargeback());
    assert(deposit@.len() == 7 && withdrawal@.len() == 10);
    if tag_at(s, i, &deposit) {
        Some((0, i + 7))
    } else if tag_at(s, i, &withdrawal) {
        Some((1, i + 10))
    } else if tag_at(s, i, &dispute) {
        Some((2, i + 7))
    } else if tag_at(s, i, &resolve) {
        Some((3, i + 7))
    } else if tag_at(s, i, &chargeback) {
        Some((4, i + 10))
    } else {
        None
    }
}

fn lacking_at(s: &[u8], i: usize) -> (r: ParseError)
    ensures
        r == lacking(s@, i as int),
{
    if i >= s.len() {
        ParseError::Incomplete
    } else {
        ParseError::Malformed
    }
}

fn head_at(s: &[u8]) -> (r: Result<(u8, usize), ParseError>)
    ensures
        match r {
            Ok((k, p)) => head_spec(s@) == Ok::<(int, int), ParseError>((k as int, p as int))
                && p <= s@.len(),
            Err(e) => head_spec(s@) == Err::<(int, int), ParseError>(e),
        },
{
    let p = skip_space_at(s, 0);
    match keyword_at_exec(s, p) {
        None => Err(lacking_at(s, p)),
        Some((k, e)) => {
            let q = skip_space_at(s, e);
            if q < s.len() && s[q] == COMMA {
                Ok((k, q + 1))
            } else {
                Err(lacking_at(s, q))
            }
        },
    }
}

fn field_at(s: &[u8], i: usize, limit: u64) -> (r: Result<(usize, u64), ParseError>)
    requires
        i <= s@.len(),
    ensures
        match r {
            Ok((p, v)) => field_spec(s@, i as int, limit as int) == Ok::<(int, int), ParseError>(
                (p as int, v as int),
            ) && p <= s@.len() && v <= limit,
            Err(e) => field_spec(s@, i as int, limit as int) == Err::<(int, int), ParseError>(e),
        },
{
    let p = skip_space_at(s, i);
    proof {
        lemma_digits_end_bounds(s@, p as int);
    }
    match number_at(s, p, None, limit) {
        Err(e) => Err(e),
        Ok((e, v)) => {
            let q = skip_space_at(s, e);
            if q < s.len() && s[q] == COMMA {
                Ok((q + 1, v))
            } else {
                Err(lacking_at(s, q))
            }
        },
    }
}

fn amount_field_at(s: &[u8], i: usize) -> (r: Result<Option<i64>, ParseError>)
    requires
        i <= s@.len(),
    ensures
        match r {
            Ok(Some(v)) => amount_field_spec(s@, i as int) == Ok::<Option<int>, ParseError>(
                Some(v as int),
            ),
            Ok(None) => amount_field_spec(s@, i as int) == Ok::<Option<int>, ParseError>(None),
            Err(e) => amount_field_spec(s@, i as int) == Err::<Option<int>, ParseError>(e),
        },
        r matches Ok(Some(v)) ==> v >= 0,
{
    let p = skip_space_at(s, i);
    if p >= s.len() {
        return Ok(None);
    }
    match four_dp_at(s, p) {
        Ok((e, v)) => {
            if skip_space_at(s, e) >= s.len() {
                Ok(Some(v))
            } else {
                Err(ParseError::Failure)
            }
        },
        Err(_) => Err(ParseError::Failure),
    }
}

/// Decodes one data row, given as bytes.
pub fn transaction_from_bytes(s: &[u8]) -> (r: Result<Transaction, ParseError>)
    ensures
        r == transaction_spec(s@),
        r matches Ok(Transaction::Deposit(_, _, a)) ==> a >= 0,
        r matches Ok(Transaction::Withdrawal(_, _, a)) ==> a >= 0,
{
    let (k, p) = match head_at(s) {
        Err(e) => return Err(e),
        Ok(h) => h,
    };
    let (p, client) = match field_at(s, p, u16::MAX as u64) {
        Err(e) => return Err(e),
        Ok(f) => f,
    };
    let (p, tx) = match field_at(s, p, u32::MAX as u64) {
        Err(e) => return Err(e),
        Ok(f) => f,
    };
    let amount = match amount_field_at(s, p) {
        Err(e) => return Err(e),
        Ok(a) => a,
    };
    let client = client as u16;
    let tx = tx as u32;
    match amount {
        Some(v) => if k == 0 {
            Ok(Transaction::Deposit(client, tx, v))
        } else if k == 1 {
            Ok(Transaction::Withdrawal(client, tx, v))
        } else {
            Err(ParseError::Failure)
        },
        None => if k == 2 {
            Ok(Transaction::Dispute(client, tx))
        } else if k == 3 {
            Ok(Transaction::Resolve(client, tx))
        } else if k == 4 {
            Ok(Transaction::Chargeback(client, tx))
        } else {
            Err(ParseError::Failure)
        },
    }
}

fn name_at(s: &[u8], i: usize, t: &[u8]) -> (r: Result<usize, ParseError>)
    requires
        i <= s@.len(),
    ensures
        match r {
            Ok(p) => name_spec(s@, i as int, t@) == Ok::<int, ParseError>(p as int) && p
                <= s@.len(),
            Err(e) => name_spec(s@, i as int, t@) == Err::<int, ParseError>(e),
        },
{
    let p = skip_space_at(s, i);
    if tag_at(s, p, t) {
        Ok(skip_space_at(s, p + t.len()))
    } else {
        Err(lacking_at(s, p))
    }
}

fn column_at(s: &[u8], i: usize, t: &[u8]) -> (r: Result<usize, ParseError>)
    requires
        i <= s@.len(),
    ensures
        match r {
            Ok(p) => column_spec(s@, i as int, t@) == Ok::<int, ParseError>(p as int) && p
                <= s@.len(),
            Err(e) => column_spec(s@, i as int, t@) == Err::<int, ParseError>(e),
        },
{
    let p = match name_at(s, i, t) {
        Err(e) => return Err(e),
        Ok(p) => p,
    };
    if p < s.len() && s[p] == COMMA {
        Ok(p + 1)
    } else {
        Err(lacking_at(s, p))
    }
}

/// Checks a header line, given as bytes.
pub fn header_from_bytes(s: &[u8]) -> (r: Result<(), ParseError>)
    ensures
        r == header_spec(s@),
{
    let kind_name: [u8; 4] = [116, 121, 112, 101];
    let client_name: [u8; 6] = [99, 108, 105, 101, 110, 116];
    let tx_name: [u8; 2] = [116, 120];
    let amount_name: [u8; 6] = [97, 109, 111, 117, 110, 116];
    assert(kind_name@ =~= kw_type());
    assert(client_name@ =~= kw_client());
    assert(tx_name@ =~= kw_tx());
    assert(amount_name@ =~= kw_amount());
    let p = match column_at(s, 0, &kind_name) {
        Err(e) => return Err(e),
        Ok(p) => p,
    };
    let p = match column_at(s, p, &client_name) {
        Err(e) => return Err(e),
        Ok(p) => p,
    };
    let p = match column_at(s, p, &tx_name) {
        Err(e) => return Err(e),
        Ok(p) => p,
    };
    let p = match name_at(s, p, &amount_name) {
        Err(e) => return Err(e),
        Ok(p) => p,
    };
    if p < s.len() {
        Err(ParseError::Failure)
    } else {
        Ok(())
    }
}

/// Whether `chr` is an ASCII decimal digit.
pub fn digit(chr: char) -> (r: bool)
    ensures
        r == ('0' <= chr && chr <= '9'),
{
    '0' <= chr && chr <= '9'
}

/// Reads a number at the start of `input`: one or more digits, at most `max`
/// of them when given, whose value fits in an `i64`. Returns the number of
/// bytes read and the value.
pub fn double(input: &str, max: Option<usize>) -> (r: Result<(usize, i64), ParseError>)
    ensures
        same_outcome(r, number_spec(input.spec_bytes(), 0, max, i64::MAX as int)),
{
    match number_at(input.as_bytes(), 0, max, i64::MAX as u64) {
        Err(e) => Err(e),
        Ok((n, v)) => Ok((n, v as i64)),
    }
}

/// Reads an amount with up to four decimal places at the start of `input`, as
/// a count of ten-thousandths. Returns the number of bytes read and the amount.
pub fn four_dp(input: &str) -> (r: Result<(usize, i64), ParseError>)
    ensures
        same_outcome(r, four_dp_spec(input.spec_bytes(), 0)),
{
    four_dp_at(input.as_bytes(), 0)
}

/// Decodes one data row; white space around every token is ignored.
pub fn parse_transaction(input: &str) -> (r: Result<Transaction, ParseError>)
    ensures
        r == transaction_spec(input.spec_bytes()),
        r matches Ok(Transaction::Deposit(_, _, a)) ==> a >= 0,
        r matches Ok(Transaction::Withdrawal(_, _, a)) ==> a >= 0,
{
    transaction_from_bytes(input.as_bytes())
}

/// Checks that `input` is the header `type, client, tx, amount`; white space
/// around every name is ignored.
pub fn parse_header(input: &str) -> (r: Result<(), ParseError>)
    ensures
        r == header_spec(input.spec_bytes()),
{
    header_from_bytes(input.as_bytes())
}

} // verus!
