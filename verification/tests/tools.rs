use parser::csv::Csv;
use parser::{first_mismatch, Format, FormatKind, ParserError, Transaction};
use parser::dispatch::{format_of_name, read_as, write_as};

fn tx(id: u64, account: &str, amount: i64, currency: &str) -> Transaction {
    Transaction {
        id,
        account: account.to_string(),
        amount,
        currency: currency.to_string(),
    }
}

#[test]
fn format_names() {
    assert_eq!(format_of_name("bin").unwrap(), FormatKind::Binary);
    assert_eq!(format_of_name("txt").unwrap(), FormatKind::TextLine);
    assert_eq!(format_of_name("csv").unwrap(), FormatKind::Delimited);
    let r = format_of_name("xml");
    assert!(matches!(r, Err(ParserError::Invalid(_))));
    if let Err(e) = format_of_name("xml") {
        assert_eq!(e.message(), "Invalid: Unknown format: xml");
    }
}

#[test]
fn dispatch_round_trip() {
    let data = vec![tx(9, "A", -1, "USD")];
    for name in ["bin", "txt", "csv"] {
        let kind = format_of_name(name).unwrap();
        let mut buf: Vec<u8> = Vec::new();
        write_as(kind, &mut buf, &data).expect("write failed");
        let parsed = read_as(kind, buf.as_slice()).expect("read failed");
        assert_eq!(data, parsed);
    }
}

#[test]
fn compare_equal_csv_files() {
    let bytes = b"1,ACC,100,USD\n";
    let a = Csv::read(bytes).expect("csv read failed");
    let b = Csv::read(bytes).expect("csv read failed");
    assert_eq!(first_mismatch(&a, &b), None);
}

#[test]
fn compare_reports_differing_amount() {
    let a = Csv::read(b"1,ACC,100,USD\n").expect("csv read failed");
    let b = Csv::read(b"1,ACC,200,USD\n").expect("csv read failed");
    let at = first_mismatch(&a, &b);
    assert_eq!(at, Some(0));
    let i = at.unwrap();
    assert_ne!(a[i], b[i]);
    assert_eq!(a[i].amount, 100);
    assert_eq!(b[i].amount, 200);
}

#[test]
fn compare_ignores_extra_length() {
    let a = Csv::read(b"1,ACC,100,USD\n").expect("csv read failed");
    let b = Csv::read(b"1,ACC,100,USD\n2,B,5,EUR\n").expect("csv read failed");
    assert_eq!(first_mismatch(&a, &b), None);
}

#[test]
fn error_messages() {
    assert_eq!(ParserError::Io.message(), "IO error");
    assert_eq!(ParserError::Csv.message(), "CSV error");
    assert_eq!(ParserError::InvalidCsv.message(), "Invalid csv");
    assert_eq!(
        ParserError::Invalid("why".to_string()).message(),
        "Invalid: why"
    );
}

#[test]
fn describe_record() {
    let t = tx(1, "ACC", -100, "USD");
    assert_eq!(
        t.describe(),
        "id: [1], account: [ACC], currency: [USD], amount: [-100]"
    );
}

#[test]
fn from_csv_record_fields() {
    let fields: Vec<String> = vec!["7".into(), "ACC".into(), "-3".into(), "USD".into()];
    let t = Transaction::from_csv_record(&fields).expect("record should map");
    assert_eq!(t, tx(7, "ACC", -3, "USD"));
    let extra: Vec<String> = vec![
        "7".into(),
        "ACC".into(),
        "-3".into(),
        "USD".into(),
        "ignored".into(),
    ];
    let t2 = Transaction::from_csv_record(&extra).expect("extra fields are ignored");
    assert_eq!(t2, tx(7, "ACC", -3, "USD"));
    let short: Vec<String> = vec!["7".into(), "ACC".into()];
    assert!(matches!(
        Transaction::from_csv_record(&short),
        Err(ParserError::InvalidCsv)
    ));
    let bad: Vec<String> = vec!["x".into(), "ACC".into(), "-3".into(), "USD".into()];
    assert!(matches!(
        Transaction::from_csv_record(&bad),
        Err(ParserError::InvalidCsv)
    ));
}

#[test]
fn transaction_equality_is_fieldwise() {
    assert_eq!(tx(1, "A", 2, "B"), tx(1, "A", 2, "B"));
    assert_ne!(tx(1, "A", 2, "B"), tx(1, "A", 3, "B"));
    assert_ne!(tx(1, "A", 2, "B"), tx(2, "A", 2, "B"));
    assert_ne!(tx(1, "A", 2, "B"), tx(1, "X", 2, "B"));
    assert_ne!(tx(1, "A", 2, "B"), tx(1, "A", 2, "X"));
}
