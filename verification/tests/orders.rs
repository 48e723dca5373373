use production_resolver::orders::make_pg_order;
use production_resolver::orders::parse_money_string;
use production_resolver::orders::MoneyParseError;
use production_resolver::orders::Order;
use production_resolver::orders::WorkPieces;

#[test]
fn test_parse_money_string() {
    let money = "$123.45";
    assert_eq!(parse_money_string(money), Ok(12345));
    let money = "123.45€";
    assert_eq!(parse_money_string(money), Ok(12345));
}

#[test]
fn test_parse_money_string_errors() {
    assert_eq!(parse_money_string(""), Err(MoneyParseError::Empty));
    assert_eq!(parse_money_string("$.-"), Err(MoneyParseError::Empty));
    assert_eq!(
        parse_money_string("99999999999999999999"),
        Err(MoneyParseError::TooLarge)
    );
}

#[test]
fn test_make_pg_order() {
    let order = Order {
        number: 11,
        work_piece: WorkPieces::P9,
        quantity: 4,
        due_date: 20,
        late_pen: "$1.50".to_string(),
        early_pen: "0.25€".to_string(),
    };
    let row = make_pg_order(&order, 9, 3).unwrap();
    assert_eq!(row.id, 0);
    assert_eq!(row.piece_id, 9);
    assert_eq!(row.client_id, 3);
    assert_eq!(row.number, 11);
    assert_eq!(row.quantity, 4);
    assert_eq!(row.due_date, 20);
    assert_eq!(row.late_pen, 150);
    assert_eq!(row.early_pen, 25);
}

#[test]
fn test_make_pg_order_bad_penalty() {
    let order = Order {
        number: 11,
        work_piece: WorkPieces::P5,
        quantity: 4,
        due_date: 20,
        late_pen: "free".to_string(),
        early_pen: "$1.00".to_string(),
    };
    assert_eq!(make_pg_order(&order, 5, 3), Err(MoneyParseError::Empty));
}

#[test]
fn test_work_pieces_as_str() {
    assert_eq!(WorkPieces::P5.as_str(), "P5");
    assert_eq!(WorkPieces::P6.as_str(), "P6");
    assert_eq!(WorkPieces::P7.as_str(), "P7");
    assert_eq!(WorkPieces::P9.as_str(), "P9");
}
