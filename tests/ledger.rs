use feonancials::amount::{format_amount, parse_amount};
use feonancials::catalog::{get_months, FileEntry, YearEntry};
use feonancials::date::{get_date, get_date_or_today, Date};
use feonancials::error::LedgerError;
use feonancials::record::{
    add_date_entry, get_amount_from_repeat_str, get_repeat_from_str, parse_file, render_file,
    Repeat, Transaction,
};
use feonancials::store::{
    add_transaction, del_entry, get_filename_from_date, get_formatted_sum_for_month,
    get_sum_for_month, get_transactions, get_transactions_for_month, write_entries,
};

fn tx(y: u32, m: u32, d: u32, amount: i64, description: &str) -> Transaction {
    Transaction {
        date: Date { year: y, month: m, day: d },
        amount,
        description: description.to_string(),
        repeat: Repeat::Never,
    }
}

#[test]
fn amount_text_is_read_in_hundredths() {
    assert_eq!(parse_amount("42.50"), Ok(4250));
    assert_eq!(parse_amount("42.5"), Ok(4250));
    assert_eq!(parse_amount("42"), Ok(4200));
    assert_eq!(parse_amount("-3.07"), Ok(-307));
    assert_eq!(parse_amount("+0.01"), Ok(1));
    assert_eq!(parse_amount("1.234"), Err(LedgerError::ParseFailure));
    assert_eq!(parse_amount("abc"), Err(LedgerError::ParseFailure));
    assert_eq!(parse_amount(""), Err(LedgerError::ParseFailure));
    assert_eq!(parse_amount(".5"), Err(LedgerError::ParseFailure));
}

#[test]
fn amount_is_written_with_two_decimals() {
    assert_eq!(format_amount(-4250), "-42.50");
    assert_eq!(format_amount(5), "0.05");
    assert_eq!(format_amount(0), "0.00");
    assert_eq!(format_amount(123456), "1234.56");
}

#[test]
fn repeat_tags_are_read() {
    assert_eq!(get_repeat_from_str("3d"), Ok(Repeat::Day(3)));
    assert_eq!(get_repeat_from_str("2w"), Ok(Repeat::Week(2)));
    assert_eq!(get_repeat_from_str("1m"), Ok(Repeat::Month(1)));
    assert_eq!(get_repeat_from_str("10y"), Ok(Repeat::Year(10)));
    assert_eq!(get_repeat_from_str(""), Ok(Repeat::Never));
    assert_eq!(get_repeat_from_str("none"), Ok(Repeat::Never));
    assert_eq!(get_repeat_from_str("5q"), Ok(Repeat::Never));
    assert_eq!(get_repeat_from_str("xd"), Err(LedgerError::ParseFailure));
    assert_eq!(get_amount_from_repeat_str("12w"), Ok(12));
    assert_eq!(get_amount_from_repeat_str("+7d"), Ok(7));
    assert_eq!(get_amount_from_repeat_str("d"), Err(LedgerError::ParseFailure));
}

#[test]
fn dates_are_read_by_the_calendar_parser() {
    assert_eq!(get_date("2024-03-15"), Ok(Date { year: 2024, month: 3, day: 15 }));
    assert_eq!(get_date("2024-02-29"), Ok(Date { year: 2024, month: 2, day: 29 }));
    assert_eq!(get_date("2023-02-29"), Err(LedgerError::ParseFailure));
    assert_eq!(get_date("not a date"), Err(LedgerError::ParseFailure));
    assert_eq!(get_date_or_today(&Some("2021-12-31".to_string()), None), Ok(Date { year: 2021, month: 12, day: 31 }));
    assert_eq!(get_date_or_today(&None, Some((2024, 5, 6))), Ok(Date { year: 2024, month: 5, day: 6 }));
    assert_eq!(get_date_or_today(&None, None), Err(LedgerError::ParseFailure));
    assert_eq!(get_date_or_today(&None, Some((10000, 1, 1))), Err(LedgerError::ParseFailure));
    assert_eq!(get_date_or_today(&None, Some((2023, 2, 29))), Err(LedgerError::ParseFailure));
    assert_eq!(Date { year: 2024, month: 3, day: 5 }.to_text(), "2024-03-05");
}

#[test]
fn month_files_live_under_the_root() {
    assert_eq!(get_filename_from_date("/data", 2024, 3), "/data/2024/03.csv");
    assert_eq!(get_filename_from_date("ledger", 1999, 12), "ledger/1999/12.csv");
}

#[test]
fn record_file_round_trip() {
    let mut t = tx(2024, 3, 1, -4250, "coffee, beans");
    t.repeat = Repeat::Week(2);
    let ts = vec![t, tx(2024, 3, 2, 100000, "salary")];
    let text = render_file(&ts);
    assert_eq!(
        text,
        "date,amount,description,repeat\n2024-03-01,-42.50,\"coffee, beans\",2w\n2024-03-02,1000.00,salary,none\n"
    );
    let back = parse_file(&text).unwrap();
    assert_eq!(back.len(), 2);
    assert_eq!(back[0].date, Date { year: 2024, month: 3, day: 1 });
    assert_eq!(back[0].amount, -4250);
    assert_eq!(back[0].description, "coffee, beans");
    assert_eq!(back[0].repeat, Repeat::Week(2));
    assert_eq!(back[1].description, "salary");
}

#[test]
fn record_fields_are_trimmed_and_headers_optional() {
    let back = parse_file("2024-01-05 , 3.5 ,  tea , 1m\r\n\n").unwrap();
    assert_eq!(back.len(), 1);
    assert_eq!(back[0].amount, 350);
    assert_eq!(back[0].description, "tea");
    assert_eq!(back[0].repeat, Repeat::Month(1));
    assert_eq!(parse_file("date,amount,description,repeat\n2024-13-01,1,x,none\n").err(), Some(LedgerError::ParseFailure));
    assert_eq!(parse_file("date,amount,description,repeat\n2024-01-01,1,x\n").err(), Some(LedgerError::ParseFailure));
    let quoted = parse_file("date,amount,description,repeat\n2024-01-01,-1.5,\"a,b\",None\n").unwrap();
    assert_eq!(quoted[0].description, "a,b");
    assert_eq!(quoted[0].amount, -150);
    assert_eq!(quoted[0].repeat, Repeat::Never);
}

#[test]
fn descriptions_with_quotes_commas_or_outer_blanks_are_quoted() {
    let ts = vec![tx(2024, 2, 1, 1, "say \"hi\""), tx(2024, 2, 2, 2, " padded "), tx(2024, 2, 3, 3, "")];
    let text = render_file(&ts);
    assert_eq!(
        text,
        "date,amount,description,repeat\n2024-02-01,0.01,\"say \"\"hi\"\"\",none\n2024-02-02,0.02,\" padded \",none\n2024-02-03,0.03,,none\n"
    );
    let back = parse_file(&text).unwrap();
    assert_eq!(back[0].description, "say \"hi\"");
    assert_eq!(back[1].description, " padded ");
    assert_eq!(back[2].description, "");
}

#[test]
fn missing_month_file_is_empty() {
    assert_eq!(get_transactions(&None).unwrap().len(), 0);
    assert_eq!(get_formatted_sum_for_month(&None), Ok("0.00".to_string()));
}

#[test]
fn saved_months_reload_sorted_and_stable() {
    let mut ts = vec![
        tx(2024, 3, 9, 1, "late"),
        tx(2024, 3, 2, 2, "first of the 2nd"),
        tx(2024, 3, 2, 3, "second of the 2nd"),
        tx(2024, 3, 1, 4, "early"),
    ];
    let text = write_entries(&mut ts);
    let back = get_transactions(&Some(text)).unwrap();
    let names: Vec<&str> = back.iter().map(|t| t.description.as_str()).collect();
    assert_eq!(names, vec!["early", "first of the 2nd", "second of the 2nd", "late"]);
}

#[test]
fn sum_of_a_month() {
    let ts = vec![tx(2024, 3, 1, -4250, "a"), tx(2024, 3, 2, 10000, "b")];
    assert_eq!(get_sum_for_month(&ts), 5750);
    let text = render_file(&ts);
    assert_eq!(get_formatted_sum_for_month(&Some(text)), Ok("57.50".to_string()));
}

#[test]
fn adding_and_deleting_entries() {
    let text = add_transaction(&None, tx(2024, 5, 20, -100, "bus")).unwrap();
    let text = add_transaction(&Some(text), tx(2024, 5, 3, -200, "bread")).unwrap();
    let listed = get_transactions_for_month(&Some(text.clone())).unwrap();
    assert_eq!(listed.len(), 2);
    assert_eq!(listed[0].description, "bread");
    let after = del_entry(&Some(text.clone()), 1).unwrap();
    let left = get_transactions(&Some(after)).unwrap();
    assert_eq!(left.len(), 1);
    assert_eq!(left[0].description, "bread");
    assert_eq!(del_entry(&Some(text), 2), Err(LedgerError::IndexOutOfRange));
    assert_eq!(del_entry(&None, 0), Err(LedgerError::IndexOutOfRange));
    assert_eq!(del_entry(&Some("garbage line".to_string()), 0), Err(LedgerError::ParseFailure));
}

#[test]
fn command_line_entries_record_spending_negated() {
    let d = Date { year: 2024, month: 4, day: 1 };
    let t = add_date_entry(d, "12.30", "lunch", &Some("1w".to_string())).unwrap();
    assert_eq!(t.amount, -1230);
    assert_eq!(t.description, "lunch");
    assert_eq!(t.repeat, Repeat::Week(1));
    assert_eq!(add_date_entry(d, "x", "lunch", &None).err(), Some(LedgerError::ParseFailure));
    assert_eq!(add_date_entry(d, "1", "a,b", &None).unwrap().description, "a,b");
    assert_eq!(add_date_entry(d, "1", "a\nb", &None).err(), Some(LedgerError::ParseFailure));
}

#[test]
fn catalog_lists_month_files_in_order() {
    let years = vec![
        YearEntry {
            stem: "2024".to_string(),
            is_dir: true,
            files: vec![
                FileEntry { stem: "03".to_string(), is_dir: false },
                FileEntry { stem: "01".to_string(), is_dir: false },
                FileEntry { stem: "archive".to_string(), is_dir: true },
            ],
        },
        YearEntry { stem: "notes".to_string(), is_dir: false, files: vec![] },
        YearEntry {
            stem: "2023".to_string(),
            is_dir: true,
            files: vec![FileEntry { stem: "12".to_string(), is_dir: false }],
        },
    ];
    assert_eq!(get_months(&years), vec!["2023-12", "2024-01", "2024-03"]);
    assert_eq!(get_months(&vec![]), Vec::<String>::new());
}

#[test]
fn transactions_are_identified_by_date_and_description() {
    assert!(tx(2024, 1, 1, 100, "rent") == tx(2024, 1, 1, 900, "rent"));
    assert!(tx(2024, 1, 1, 100, "rent") != tx(2024, 1, 2, 100, "rent"));
    assert!(tx(2024, 1, 1, 100, "rent") != tx(2024, 1, 1, 100, "food"));
}

#[test]
fn largest_amounts_and_years() {
    assert_eq!(parse_amount("999999999999999.99"), Ok(99_999_999_999_999_999));
    assert_eq!(parse_amount("-999999999999999.99"), Ok(-99_999_999_999_999_999));
    assert_eq!(parse_amount("1000000000000000"), Err(LedgerError::ParseFailure));
    assert_eq!(format_amount(-99_999_999_999_999_999), "-999999999999999.99");
    let t = tx(9999, 12, 31, 99_999_999_999_999_999, "max");
    let back = parse_file(&render_file(&vec![t])).unwrap();
    assert_eq!(back[0].date, Date { year: 9999, month: 12, day: 31 });
    assert_eq!(back[0].amount, 99_999_999_999_999_999);
    assert_eq!(Date::from_parts(10000, 1, 1), None);
    assert_eq!(Date::from_parts(2000, 2, 29), Some(Date { year: 2000, month: 2, day: 29 }));
    assert_eq!(Date::from_parts(1900, 2, 29), None);
    assert_eq!(Date::from_parts(2024, 4, 31), None);
}
