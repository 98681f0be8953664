use kplc_outage_parser::client::{Book, KPLCClient, Page};
use kplc_outage_parser::data::parse_date;

#[test]
fn test_parsing_date() {
    let to_be_parsed = String::from(
        "DATE: Sunday 19.06.2022                    TIME: 9.00 A.M. \u{ad} 5.00 P.M.",
    );
    let date = parse_date(&to_be_parsed).unwrap();
    assert!(date.day == String::from("Sunday"));
    assert!(date.day_date == 19);
    assert!(date.month_date == 6);
    assert!(date.year == 2022);
    assert!(date.interval.from == String::from("9.00 A.M"));
    assert!(date.interval.to == String::from("5.00 P.M"));
}

#[test]
fn test_parsing_date_ascii_dash() {
    let date = parse_date("DATE: Monday 01.12.2023  TIME: 10.00 A.M. - 3.30 P.M.").unwrap();
    assert_eq!(date.day, String::from("Monday"));
    assert_eq!(date.day_date, 1);
    assert_eq!(date.month_date, 12);
    assert_eq!(date.year, 2023);
    assert_eq!(date.interval.from, String::from("10.00 A.M"));
    assert_eq!(date.interval.to, String::from("3.30 P.M"));
}

#[test]
fn test_parsing_date_rejects_short_line() {
    assert!(parse_date("DATE: Sunday 19.06.2022").is_err());
    assert!(parse_date("").is_err());
    assert!(parse_date("TIME: 9.00 A.M. - 5.00 P.M.").is_err());
}

#[test]
fn test_parsing_date_rejects_huge_year() {
    // the year must fit the numeric type
    assert!(
        parse_date("DATE: Sunday 19.06.99999999999  TIME: 9.00 A.M. - 5.00 P.M.").is_err()
    );
}

#[test]
fn test_parsing_date_rejects_malformed_day_month() {
    // the third token must be a day.month pair
    assert!(parse_date("DATE: Sunday 19 06 2022 TIME: 9.00 A.M. - 5.00 P.M. x").is_err());
}

#[test]
fn test_book_and_pages_building() {
    let mut page = Page::new();
    page.insert_line(String::from("REGION Q"));
    page.insert_line(String::from("AREA: Z"));
    page.insert_line(String::from("DATE: Friday 24.06.2022  TIME: 9.00 A.M. - 5.00 P.M."));
    page.insert_line(String::from("Spot1, Spot2"));
    let book = Book { pages: vec![page] };
    let mut client = KPLCClient::new();
    let data = client.parse_book_for_kplc_data(book).unwrap();
    assert_eq!(data.regions.len(), 1);
    assert_eq!(data.regions[0].region, String::from("Q"));
    assert_eq!(data.regions[0].parts[0].areas[0].places.len(), 2);
}
