use parser::csv::Csv;
use parser::{BinParser, Format, ParserError, Transaction, TxtParser};

fn tx(id: u64, account: &str, amount: i64, currency: &str) -> Transaction {
    Transaction {
        id,
        account: account.to_string(),
        amount,
        currency: currency.to_string(),
    }
}

#[test]
fn csv_round() {
    let data = vec![tx(1, "ACC", 100, "USD")];
    let mut buf: Vec<u8> = Vec::new();
    Csv::write(&mut buf, &data).expect("csv write failed");
    let parsed = Csv::read(buf.as_slice()).expect("csv read failed");
    assert_eq!(data, parsed);
}

#[test]
fn csv_round_ne() {
    let data = vec![tx(1, "ACC", 100, "USD")];
    let mut buf: Vec<u8> = Vec::new();
    Csv::write(&mut buf, &data).expect("csv write failed");
    let mut parsed = Csv::read(buf.as_slice()).expect("csv read failed");
    parsed.push(tx(0, "", 0, ""));
    assert_ne!(data, parsed);
}

#[test]
fn bin_layout_exact() {
    let data = vec![tx(1, "ACC", 100, "USD")];
    let mut buf: Vec<u8> = Vec::new();
    BinParser::write(&mut buf, &data).expect("bin write failed");
    let expected: Vec<u8> = vec![
        0x01, 0x00, 0x00, 0x00, // record count
        0x01, 0x00, 0x00, 0x00, 0x00, 0x00, 0x00, 0x00, // id
        0x64, 0x00, 0x00, 0x00, 0x00, 0x00, 0x00, 0x00, // amount
        0x03, 0x00, 0x00, 0x00, // account length
        0x41, 0x43, 0x43, // "ACC"
        0x03, 0x00, 0x00, 0x00, // currency length
        0x55, 0x53, 0x44, // "USD"
    ];
    assert_eq!(buf, expected);
}

#[test]
fn txt_line_exact() {
    let data = vec![tx(1, "ACC", 100, "USD")];
    let mut buf: Vec<u8> = Vec::new();
    TxtParser::write(&mut buf, &data).expect("txt write failed");
    assert_eq!(buf, b"1 ACC 100 USD\n".to_vec());
}

#[test]
fn csv_row_exact() {
    let data = vec![tx(1, "ACC", 100, "USD")];
    let mut buf: Vec<u8> = Vec::new();
    Csv::write(&mut buf, &data).expect("csv write failed");
    assert_eq!(buf, b"1,ACC,100,USD\n".to_vec());
}

#[test]
fn bin_round_trip() {
    let data = vec![
        tx(1, "ACC", 100, "USD"),
        tx(2, "B-2", -250, "EUR"),
        tx(u64::MAX, "x", i64::MIN, "JPY"),
        tx(7, "", 0, ""),
    ];
    let mut buf: Vec<u8> = Vec::new();
    BinParser::write(&mut buf, &data).expect("bin write failed");
    let parsed = BinParser::read(buf.as_slice()).expect("bin read failed");
    assert_eq!(data, parsed);
}

#[test]
fn txt_round_trip() {
    let data = vec![
        tx(1, "ACC", 100, "USD"),
        tx(2, "acct-2", -250, "EUR"),
        tx(u64::MAX, "x", i64::MIN, "JPY"),
    ];
    let mut buf: Vec<u8> = Vec::new();
    TxtParser::write(&mut buf, &data).expect("txt write failed");
    let parsed = TxtParser::read(buf.as_slice()).expect("txt read failed");
    assert_eq!(data, parsed);
}

#[test]
fn csv_round_trip_quoting() {
    let data = vec![
        tx(1, "with,comma", 100, "USD"),
        tx(2, "say \"hi\"", -5, "EUR"),
        tx(3, "line\nbreak", 0, "GBP"),
        tx(4, "", 17, "CHF"),
    ];
    let mut buf: Vec<u8> = Vec::new();
    Csv::write(&mut buf, &data).expect("csv write failed");
    let parsed = Csv::read(buf.as_slice()).expect("csv read failed");
    assert_eq!(data, parsed);
}

#[test]
fn csv_quotes_only_when_needed() {
    let data = vec![tx(1, "a,b", 2, "USD")];
    let mut buf: Vec<u8> = Vec::new();
    Csv::write(&mut buf, &data).expect("csv write failed");
    assert_eq!(buf, b"1,\"a,b\",2,USD\n".to_vec());
}

#[test]
fn txt_three_tokens_invalid() {
    let r = TxtParser::read(b"1 ACC USD");
    assert!(matches!(r, Err(ParserError::Invalid(_))));
    if let Err(ParserError::Invalid(msg)) = TxtParser::read(b"1 ACC USD") {
        assert_eq!(msg, "Invalid amount, line 1: 1 ACC USD");
    }
}

#[test]
fn txt_five_tokens_invalid() {
    let r = TxtParser::read(b"1 ACC 100 USD EXTRA");
    assert!(matches!(r, Err(ParserError::Invalid(_))));
    if let Err(ParserError::Invalid(msg)) = TxtParser::read(b"1 ACC 100 USD EXTRA") {
        assert_eq!(msg, "Invalid line 1: 1 ACC 100 USD EXTRA");
    }
}

#[test]
fn txt_bad_id_invalid() {
    let r = TxtParser::read(b"X ACC 100 USD");
    assert!(matches!(r, Err(ParserError::Invalid(_))));
    if let Err(ParserError::Invalid(msg)) = TxtParser::read(b"X ACC 100 USD") {
        assert_eq!(msg, "Invalid id, line 1: X ACC 100 USD");
    }
}

#[test]
fn txt_blank_line_missing_id() {
    let r = TxtParser::read(b"1 ACC 100 USD\n\n");
    assert!(matches!(r, Err(ParserError::Invalid(_))));
    if let Err(ParserError::Invalid(msg)) = TxtParser::read(b"1 ACC 100 USD\n\n") {
        assert_eq!(msg, "Invalid id, line 2: ");
    }
}

#[test]
fn txt_line_number_in_message() {
    let r = TxtParser::read(b"1 ACC 100 USD\n2 B nope EUR\n");
    if let Err(ParserError::Invalid(msg)) = r {
        assert_eq!(msg, "Invalid amount, line 2: 2 B nope EUR");
    } else {
        panic!("expected a validation error");
    }
}

#[test]
fn bin_truncated_stream_io() {
    // The header declares one record but no record bytes follow.
    let input: Vec<u8> = vec![0x01, 0x00, 0x00, 0x00];
    let r = BinParser::read(input.as_slice());
    assert!(matches!(r, Err(ParserError::Io)));
}

#[test]
fn bin_truncated_string_io() {
    // A record whose account length runs past the end of the stream.
    let mut input: Vec<u8> = Vec::new();
    input.extend_from_slice(&[0x01, 0x00, 0x00, 0x00]);
    input.extend_from_slice(&[0u8; 16]);
    input.extend_from_slice(&[0xff, 0x00, 0x00, 0x00]);
    input.extend_from_slice(b"short");
    let r = BinParser::read(input.as_slice());
    assert!(matches!(r, Err(ParserError::Io)));
}

#[test]
fn bin_empty_input_io() {
    let r = BinParser::read(b"");
    assert!(matches!(r, Err(ParserError::Io)));
}

#[test]
fn bin_lossy_account_bytes() {
    // One record whose account bytes are not valid UTF-8: the bad byte
    // becomes the replacement character instead of failing.
    let mut input: Vec<u8> = Vec::new();
    input.extend_from_slice(&[0x01, 0x00, 0x00, 0x00]);
    input.extend_from_slice(&5u64.to_le_bytes());
    input.extend_from_slice(&9i64.to_le_bytes());
    input.extend_from_slice(&[0x01, 0x00, 0x00, 0x00]);
    input.push(0xff);
    input.extend_from_slice(&[0x03, 0x00, 0x00, 0x00]);
    input.extend_from_slice(b"USD");
    let parsed = BinParser::read(input.as_slice()).expect("bin read failed");
    assert_eq!(parsed.len(), 1);
    assert_eq!(parsed[0].account, "\u{fffd}");
    assert_eq!(parsed[0].currency, "USD");
}

#[test]
fn txt_invalid_utf8_io() {
    let r = TxtParser::read(&[0x31, 0x20, 0xff]);
    assert!(matches!(r, Err(ParserError::Io)));
}

#[test]
fn txt_non_ascii_fields() {
    let data = vec![tx(1, "ACCÉ", 100, "US\u{20AC}")];
    let mut buf: Vec<u8> = Vec::new();
    TxtParser::write(&mut buf, &data).expect("txt write failed");
    let parsed = TxtParser::read(buf.as_slice()).expect("txt read failed");
    assert_eq!(data, parsed);
}

#[test]
fn csv_unterminated_quote() {
    let r = Csv::read(b"1,\"open,100,USD\n");
    assert!(matches!(r, Err(ParserError::Csv)));
}

#[test]
fn csv_stray_quote() {
    let r = Csv::read(b"1,ab\"c,100,USD\n");
    assert!(matches!(r, Err(ParserError::Csv)));
}

#[test]
fn csv_text_after_closing_quote() {
    let r = Csv::read(b"1,\"a\"b,100,USD\n");
    assert!(matches!(r, Err(ParserError::Csv)));
}

#[test]
fn csv_invalid_utf8() {
    let r = Csv::read(&[0x31, 0x2c, 0xff]);
    assert!(matches!(r, Err(ParserError::Csv)));
}

#[test]
fn csv_wrong_arity_invalid() {
    let r = Csv::read(b"1,ACC,100\n");
    assert!(matches!(r, Err(ParserError::InvalidCsv)));
    let r = Csv::read(b"1,ACC,100,USD,EXTRA\n");
    assert!(matches!(r, Err(ParserError::InvalidCsv)));
}

#[test]
fn csv_bad_number_invalid() {
    let r = Csv::read(b"one,ACC,100,USD\n");
    assert!(matches!(r, Err(ParserError::InvalidCsv)));
    let r = Csv::read(b"1,ACC,ten,USD\n");
    assert!(matches!(r, Err(ParserError::InvalidCsv)));
}

#[test]
fn csv_blank_lines_skipped() {
    let parsed = Csv::read(b"1,A,2,USD\n\n3,B,4,EUR\n").expect("csv read failed");
    assert_eq!(parsed, vec![tx(1, "A", 2, "USD"), tx(3, "B", 4, "EUR")]);
}

#[test]
fn csv_crlf_records() {
    let parsed = Csv::read(b"1,A,2,USD\r\n3,B,4,EUR\r\n").expect("csv read failed");
    assert_eq!(parsed, vec![tx(1, "A", 2, "USD"), tx(3, "B", 4, "EUR")]);
}

#[test]
fn csv_last_record_without_newline() {
    let parsed = Csv::read(b"1,A,2,USD").expect("csv read failed");
    assert_eq!(parsed, vec![tx(1, "A", 2, "USD")]);
}

#[test]
fn idempotent_redecode_all_formats() {
    let sources: Vec<Vec<u8>> = vec![
        b"5,first,-12,USD\n8,\"two,fields\",3,EUR\n".to_vec(),
        b"+5 first -12 USD\n".to_vec(),
        {
            let mut b = Vec::new();
            BinParser::write(&mut b, &vec![tx(5, "first", -12, "USD")]).unwrap();
            b
        },
    ];
    for (i, src) in sources.iter().enumerate() {
        let first = match i {
            0 => Csv::read(src.as_slice()).expect("decode failed"),
            1 => TxtParser::read(src.as_slice()).expect("decode failed"),
            _ => BinParser::read(src.as_slice()).expect("decode failed"),
        };
        let mut buf: Vec<u8> = Vec::new();
        match i {
            0 => Csv::write(&mut buf, &first).expect("encode failed"),
            1 => TxtParser::write(&mut buf, &first).expect("encode failed"),
            _ => BinParser::write(&mut buf, &first).expect("encode failed"),
        }
        let second = match i {
            0 => Csv::read(buf.as_slice()).expect("redecode failed"),
            1 => TxtParser::read(buf.as_slice()).expect("redecode failed"),
            _ => BinParser::read(buf.as_slice()).expect("redecode failed"),
        };
        assert_eq!(first, second);
    }
}

#[test]
fn txt_plus_sign_accepted() {
    let parsed = TxtParser::read(b"+1 ACC +100 USD\n").expect("txt read failed");
    assert_eq!(parsed, vec![tx(1, "ACC", 100, "USD")]);
}

#[test]
fn txt_overflow_rejected() {
    let r = TxtParser::read(b"18446744073709551616 ACC 100 USD\n");
    assert!(matches!(r, Err(ParserError::Invalid(_))));
    let parsed = TxtParser::read(b"18446744073709551615 ACC -9223372036854775808 USD\n")
        .expect("txt read failed");
    assert_eq!(parsed, vec![tx(u64::MAX, "ACC", i64::MIN, "USD")]);
}

#[test]
fn txt_crlf_line_endings() {
    let parsed = TxtParser::read(b"1 ACC 100 USD\r\n2 B 5 EUR\r\n").expect("txt read failed");
    assert_eq!(parsed, vec![tx(1, "ACC", 100, "USD"), tx(2, "B", 5, "EUR")]);
}

#[test]
fn txt_last_line_without_newline() {
    let parsed = TxtParser::read(b"1 ACC 100 USD").expect("txt read failed");
    assert_eq!(parsed, vec![tx(1, "ACC", 100, "USD")]);
}

#[test]
fn bin_trailing_bytes_ignored() {
    let data = vec![tx(1, "ACC", 100, "USD")];
    let mut buf: Vec<u8> = Vec::new();
    BinParser::write(&mut buf, &data).expect("bin write failed");
    buf.extend_from_slice(b"trailing");
    let parsed = BinParser::read(buf.as_slice()).expect("bin read failed");
    assert_eq!(data, parsed);
}

#[test]
fn txt_repeated_separators() {
    let parsed = TxtParser::read(b"1   ACC\t100  USD\n").expect("txt read failed");
    assert_eq!(parsed, vec![tx(1, "ACC", 100, "USD")]);
}
