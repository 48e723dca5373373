use production_resolver::digits::i64_to_string;
use production_resolver::digits::parse_i64;
use production_resolver::payload::format_id_list;
use production_resolver::payload::parse_id_list;

#[test]
fn test_format_id_list() {
    assert_eq!(format_id_list(&vec![1, 2, 3]), "1,2,3".to_string());
    assert_eq!(format_id_list(&vec![]), "".to_string());
    assert_eq!(format_id_list(&vec![7]), "7".to_string());
    assert_eq!(format_id_list(&vec![-5, 10]), "-5,10".to_string());
}

#[test]
fn test_parse_id_list() {
    assert_eq!(parse_id_list("1,2,3"), vec![1, 2, 3]);
    assert_eq!(parse_id_list("10"), vec![10]);
    assert_eq!(parse_id_list(""), Vec::<i64>::new());
    assert_eq!(parse_id_list(",,"), Vec::<i64>::new());
    // tokens that fail to parse are skipped
    assert_eq!(parse_id_list("1,x,3"), vec![1, 3]);
    assert_eq!(parse_id_list("9223372036854775807"), vec![i64::MAX]);
    // one past the maximum does not parse, so it is skipped
    assert_eq!(parse_id_list("9223372036854775808"), Vec::<i64>::new());
}

#[test]
fn test_id_list_round_trip() {
    let ids: Vec<i64> = vec![10, 20, 30];
    assert_eq!(parse_id_list(format_id_list(&ids).as_str()), ids);

    let single: Vec<i64> = vec![987654321012345678];
    assert_eq!(parse_id_list(format_id_list(&single).as_str()), single);
}

#[test]
fn test_parse_i64() {
    assert_eq!(parse_i64("42"), Some(42));
    assert_eq!(parse_i64("-42"), Some(-42));
    assert_eq!(parse_i64("+7"), Some(7));
    assert_eq!(parse_i64("0"), Some(0));
    assert_eq!(parse_i64(""), None);
    assert_eq!(parse_i64("-"), None);
    assert_eq!(parse_i64("4 2"), None);
    assert_eq!(parse_i64("12a"), None);
    assert_eq!(parse_i64("9223372036854775807"), Some(i64::MAX));
    assert_eq!(parse_i64("9223372036854775808"), None);
    assert_eq!(parse_i64("-9223372036854775808"), Some(i64::MIN));
    assert_eq!(parse_i64("-9223372036854775809"), None);
}

#[test]
fn test_i64_to_string() {
    assert_eq!(i64_to_string(0), "0".to_string());
    assert_eq!(i64_to_string(42), "42".to_string());
    assert_eq!(i64_to_string(-17), "-17".to_string());
    assert_eq!(i64_to_string(i64::MAX), "9223372036854775807".to_string());
    assert_eq!(i64_to_string(i64::MIN), "-9223372036854775808".to_string());
}
