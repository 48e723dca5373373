//! Client orders: the inbound order document, the persisted order row, and
//! the money-string parser used on the intake path.

use vstd::prelude::*;
use vstd::string::StrSliceExecFns;
use crate::digits::digit_val;
use crate::digits::digits_val;
use crate::digits::is_digit;

verus! {

/// The finished pieces a client can order.
#[derive(Clone, Copy, Debug, PartialEq, Eq, Structural)]
pub enum WorkPieces {
    P5,
    P6,
    P7,
    P9,
}

impl WorkPieces {
    /// The piece name as stored in the piece table.
    pub fn as_str(&self) -> (r: &'static str)
        ensures
            *self == WorkPieces::P5 ==> r@ == "P5"@,
            *self == WorkPieces::P6 ==> r@ == "P6"@,
            *self == WorkPieces::P7 ==> r@ == "P7"@,
            *self == WorkPieces::P9 ==> r@ == "P9"@,
    {
        match self {
            WorkPieces::P5 => "P5",
            WorkPieces::P6 => "P6",
            WorkPieces::P7 => "P7",
            WorkPieces::P9 => "P9",
        }
    }
}

/// An order as the client document states it; penalties arrive as money
/// strings and are parsed on intake.
#[derive(Debug)]
pub struct Order {
    pub number: i32,
    pub work_piece: WorkPieces,
    pub quantity: i32,
    pub due_date: i32,
    pub late_pen: String,
    pub early_pen: String,
}

/// The client a document names.
#[derive(Debug)]
pub struct Client {
    pub name_id: String,
}

/// One inbound order document: who ordered, and what.
#[derive(Debug)]
pub struct ClientOrder {
    pub client: Client,
    pub order: Order,
}

/// An order row as the store keeps it; money in integer minor units.
#[derive(Clone, Copy, Debug, PartialEq, Eq, Structural)]
pub struct PgOrder {
    pub id: i64,
    pub piece_id: i64,
    pub client_id: i64,
    pub number: i32,
    pub quantity: i32,
    pub due_date: i32,
    pub late_pen: i64,
    pub early_pen: i64,
}

/// Why a money string failed to parse.
#[derive(Clone, Copy, Debug, PartialEq, Eq, Structural)]
pub enum MoneyParseError {
    /// The string holds no digit at all.
    Empty,
    /// The digits name an amount beyond the store's money range.
    TooLarge,
}

impl MoneyParseError {
    /// A short operator-facing description of the failure.
    pub fn describe(&self) -> (r: &'static str)
        ensures
            *self == MoneyParseError::Empty ==> r@ == "money string holds no digits"@,
            *self == MoneyParseError::TooLarge ==> r@ == "money amount out of range"@,
    {
        match self {
            MoneyParseError::Empty => "money string holds no digits",
            MoneyParseError::TooLarge => "money amount out of range",
        }
    }
}

/// The digits of a money string, with every other character dropped.
pub open spec fn money_digits(s: Seq<char>) -> Seq<char> {
    s.filter(|c: char| is_digit(c))
}

/// What parsing a money string yields: the value of its digits read as one
/// decimal number, all other characters ignored.
pub open spec fn parse_money_spec(s: Seq<char>) -> Result<i64, MoneyParseError> {
    let ds = money_digits(s);
    if ds.len() == 0 {
        Err(MoneyParseError::Empty)
    } else if digits_val(ds) > i64::MAX {
        Err(MoneyParseError::TooLarge)
    } else {
        Ok(digits_val(ds) as i64)
    }
}

/// Parses a money string into minor units by keeping only its digits.
///
/// The parser cannot tell a well-formed amount from malformed input that
/// happens to contain digits; callers must pre-validate the format.
pub fn parse_money_string(money: &str) -> (r: Result<i64, MoneyParseError>)
    ensures
        r == parse_money_spec(money@),
{
    let n = money.unicode_len();
    let mut i: usize = 0;
    let mut val: u64 = 0;
    let mut seen_digit = false;
    let mut too_big = false;
    while i < n
        invariant
            i <= n,
            n == money@.len(),
            seen_digit == (money_digits(money@.take(i as int)).len() > 0),
            !too_big ==> val == digits_val(money_digits(money@.take(i as int)))
                && val <= i64::MAX,
            too_big ==> digits_val(money_digits(money@.take(i as int))) > i64::MAX,
        decreases n - i,
    {
        let ghost prefix = money@.take(i as int);
        let ghost ds = money_digits(prefix);
        let c = money.get_char(i);
        let cv = c as u32;
        proof {
            assert(money@.take(i + 1).drop_last() =~= prefix);
            assert(money@.take(i + 1).last() == c);
            reveal(Seq::filter);
        }
        if cv >= 48 && cv <= 57 {
            proof {
                assert(money_digits(money@.take(i + 1)) =~= ds.push(c));
                assert(ds.push(c).drop_last() =~= ds);
                assert(digits_val(ds.push(c)) == digits_val(ds) * 10 + digit_val(c));
            }
            let d = (cv - 48) as u64;
            if too_big {
            } else if val > 922337203685477580u64 {
                too_big = true;
            } else {
                let nv = val * 10 + d;
                if nv > 9223372036854775807u64 {
                    too_big = true;
                } else {
                    val = nv;
                }
            }
            seen_digit = true;
        } else {
            proof {
                assert(money_digits(money@.take(i + 1)) =~= ds);
            }
        }
        i = i + 1;
    }
    proof {
        assert(money@.take(n as int) =~= money@);
    }
    if !seen_digit {
        Err(MoneyParseError::Empty)
    } else if too_big {
        Err(MoneyParseError::TooLarge)
    } else {
        Ok(val as i64)
    }
}

/// The pure core of order intake: parses both penalty amounts and shapes
/// the row to insert, given the resolved piece and client ids. The caller
/// owns the store: it resolves the ids, inserts the row, and announces the
/// new order id — atomically with the insert — on the "new order" channel.
pub fn make_pg_order(order: &Order, piece_id: i64, client_id: i64) -> (r: Result<
    PgOrder,
    MoneyParseError,
>)
    ensures
        parse_money_spec(order.late_pen@) is Err ==> r == Err::<PgOrder, MoneyParseError>(
            parse_money_spec(order.late_pen@)->Err_0,
        ),
        parse_money_spec(order.late_pen@) is Ok && parse_money_spec(order.early_pen@) is Err
            ==> r == Err::<PgOrder, MoneyParseError>(parse_money_spec(order.early_pen@)->Err_0),
        parse_money_spec(order.late_pen@) is Ok && parse_money_spec(order.early_pen@) is Ok
            ==> r == Ok::<PgOrder, MoneyParseError>(PgOrder {
            id: 0,
            piece_id,
            client_id,
            number: order.number,
            quantity: order.quantity,
            due_date: order.due_date,
            late_pen: parse_money_spec(order.late_pen@)->Ok_0,
            early_pen: parse_money_spec(order.early_pen@)->Ok_0,
        }),
{
    let late_pen = match parse_money_string(order.late_pen.as_str()) {
        Ok(v) => v,
        Err(e) => {
            return Err(e);
        },
    };
    let early_pen = match parse_money_string(order.early_pen.as_str()) {
        Ok(v) => v,
        Err(e) => {
            return Err(e);
        },
    };
    Ok(PgOrder {
        id: 0,
        piece_id,
        client_id,
        number: order.number,
        quantity: order.quantity,
        due_date: order.due_date,
        late_pen,
        early_pen,
    })
}

} // verus!
