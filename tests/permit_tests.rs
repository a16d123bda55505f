use rust_s63::permit::{
    get_date, get_version, permit_from_str, CellPermit, Date, DateTime, GetPermit, PermitFile,
    PermitIndex, PermitRecord, SericeLevelIndicator, E,
};

const PERMIT_FILE: &str = ":DATE 20071023 10:20
:VERSION 2
:ENC
GB10000120071231517C1E9A4BCF3826517C1E9A4BCF38263A5A80B723886A31,0,1,GB,hej
GB10000220071231BBA63203A5992420BBA63203A5992420ED56CD0F5F7390FC,1,0,GB,
GB1000042007123164B51D24FB77ADB364B51D24FB77ADB3EEA2291965966391,0,,GB,
:ECS";

const RECORD: &str = "GB61021A200711301F3EC4E525FFFCEC1F3EC4E525FFFCEC3E91E355E4E82D30,0,,GB,";

fn date(year: i32, month: u32, day: u32) -> Date {
    Date { year, month, day }
}

fn date_time(year: i32, month: u32, day: u32, hour: u32, minute: u32) -> DateTime {
    DateTime { date: date(year, month, day), hour, minute, second: 0 }
}

#[test]
fn read_date() -> Result<(), E> {
    let tests = vec![
        (":DATE 19990101 20:20", date_time(1999, 1, 1, 20, 20)),
        (":DATE 19990101", date_time(1999, 1, 1, 0, 0)),
        (":DATE 20120422 14:11", date_time(2012, 4, 22, 14, 11)),
    ];
    for (i, a) in tests.iter().enumerate() {
        println!("test {}: {}", i, a.0);
        match get_date(a.0) {
            Ok(val) => assert_eq!(val, a.1),
            Err(e) => {
                println!("{:?}", e);
                return Err(e);
            }
        }
    }
    Ok(())
}

#[test]
fn read_version() -> Result<(), E> {
    let tests = vec![(":VERSION 2", 2), (":VERSION 123", 123)];
    for (i, a) in tests.iter().enumerate() {
        println!("test {}: {}", i, a.0);
        assert_eq!(get_version(a.0)?, a.1);
    }
    Ok(())
}

#[test]
fn parse_permit() -> Result<(), E> {
    let p = rust_s63::permit::parse_permit(RECORD, &String::from("12345"))?;
    assert_eq!(p.cell_permit.cell, "GB61021A");
    assert_eq!(p.cell_permit.date, date(2007, 11, 30));
    Ok(())
}

#[test]
fn decrypt_key() -> Result<(), E> {
    let hwid = "12348";
    let expected_key = "C1CB518E9C";
    let encrypted_key = "BEB9BFE3C7C6CE68";
    let decrypted_key = hex::encode_upper(rust_s63::permit::decrypt_key(encrypted_key, hwid)?);
    assert_eq!(decrypted_key, expected_key);
    Ok(())
}

#[test]
fn keys_iter() {
    let p = CellPermit {
        cell: String::from("abc"),
        date: date(2012, 4, 22),
        key1: [0, 0, 0, 0, 0],
        key2: [0, 0, 0, 0, 0],
    };
    let mut iter = p.keys().into_iter();
    assert_eq!(iter.next(), Some([0, 0, 0, 0, 0]));
    assert_eq!(iter.next(), None);

    let p = CellPermit {
        cell: String::from("abc"),
        date: date(2012, 4, 22),
        key1: [0, 0, 0, 0, 0],
        key2: [0, 0, 0, 0, 1],
    };
    let mut iter = p.keys().into_iter();
    assert_eq!(iter.next(), Some([0, 0, 0, 0, 0]));
    assert_eq!(iter.next(), Some([0, 0, 0, 0, 1]));
    assert_eq!(iter.next(), None);
}

#[test]
fn read_permit_file() -> Result<(), E> {
    let (md, pf) = PermitFile::new(PERMIT_FILE)?;
    assert_eq!(md.date, date_time(2007, 10, 23, 10, 20));
    let mut permits = pf.permits("12345");
    let mut cps = Vec::new();
    while let Some(x) = permits.next() {
        cps.push(x.unwrap());
    }
    assert_eq!(cps.len(), 3);
    let cps0cp = CellPermit {
        cell: String::from("GB100001"),
        date: date(2007, 12, 31),
        key1: [54, 62, 171, 50, 198],
        key2: [54, 62, 171, 50, 198],
    };
    let cps1cp = CellPermit {
        cell: String::from("GB100002"),
        date: date(2007, 12, 31),
        key1: [73, 74, 128, 79, 106],
        key2: [73, 74, 128, 79, 106],
    };
    let cps2cp = CellPermit {
        cell: String::from("GB100004"),
        date: date(2007, 12, 31),
        key1: [89, 44, 236, 217, 52],
        key2: [89, 44, 236, 217, 52],
    };
    assert_eq!(
        cps[0],
        PermitRecord {
            cell_permit: cps0cp,
            sli: SericeLevelIndicator::SubscriptionPermit,
            edition: Some(1),
            data_server_id: String::from("GB"),
            comment: String::from("hej"),
        }
    );
    assert_eq!(
        cps[1],
        PermitRecord {
            cell_permit: cps1cp,
            sli: SericeLevelIndicator::SinglePurchasePermit,
            edition: Some(0),
            data_server_id: String::from("GB"),
            comment: String::from(""),
        }
    );
    assert_eq!(
        cps[2],
        PermitRecord {
            cell_permit: cps2cp,
            sli: SericeLevelIndicator::SubscriptionPermit,
            edition: None,
            data_server_id: String::from("GB"),
            comment: String::from(""),
        }
    );
    Ok(())
}

#[test]
fn full_file_metadata_and_version() {
    let (md, _) = PermitFile::new(PERMIT_FILE).unwrap();
    assert_eq!(md.version, 2);
    assert_eq!(md.date.hour, 10);
    assert_eq!(md.date.minute, 20);
}

#[test]
fn index_from_file_looks_up_cells() {
    let index = permit_from_str(PERMIT_FILE, "12345").unwrap();
    let rec = index.get_permit("GB100002").unwrap();
    assert_eq!(rec.cell_permit.key1, [73, 74, 128, 79, 106]);
    assert_eq!(rec.sli, SericeLevelIndicator::SinglePurchasePermit);
    assert!(index.get_permit("GB100003").is_none());
}

#[test]
fn index_later_record_replaces_earlier() {
    let text = ":DATE 20071023\n:VERSION 2\nGB10000120071231517C1E9A4BCF3826517C1E9A4BCF38263A5A80B723886A31,0,1,GB,first\nGB10000120071231517C1E9A4BCF3826517C1E9A4BCF38263A5A80B723886A31,1,2,GB,second\n";
    let index = permit_from_str(text, "12345").unwrap();
    let rec = index.get_permit("GB100001").unwrap();
    assert_eq!(rec.comment, "second");
    assert_eq!(rec.edition, Some(2));
}

#[test]
fn index_fails_on_first_bad_record() {
    let text = ":DATE 20071023\n:VERSION 2\nGB10000120071231517C1E9A4BCF3826517C1E9A4BCF38263A5A80B723886A31,7,1,GB,x\n";
    assert!(matches!(permit_from_str(text, "12345"), Err(E::InvalidSli)));
}

#[test]
fn permits_go_on_after_a_bad_line() {
    let text = ":DATE 20071023\n:VERSION 2\n:ENC\nshort,0,,GB,\nGB10000220071231BBA63203A5992420BBA63203A5992420ED56CD0F5F7390FC,1,0,GB,\n:ECS\n";
    let (_, pf) = PermitFile::new(text).unwrap();
    let mut permits = pf.permits("12345");
    assert!(matches!(permits.next(), Some(Err(E::ParseError(1, _)))));
    let rec = permits.next().unwrap().unwrap();
    assert_eq!(rec.cell_permit.cell, "GB100002");
    assert!(permits.next().is_none());
}

#[test]
fn header_errors_name_the_line() {
    assert!(matches!(PermitFile::new(":DAT 20071023\n:VERSION 2\n"), Err(E::ParseError(1, _))));
    assert!(matches!(PermitFile::new(":DATE 20071023\n:VERS 2\n"), Err(E::ParseError(2, _))));
    match get_date(":DATE 2007XX23") {
        Err(E::ParseError(1, t)) => assert_eq!(t, ":DATE 2007XX23"),
        _ => panic!("expected a header error on line 1"),
    }
    match get_version(":VERSION 300") {
        Err(E::ParseError(2, t)) => assert_eq!(t, ":VERSION 300"),
        _ => panic!("expected a header error on line 2"),
    }
    assert!(matches!(get_version(":VERSION +2"), Err(E::ParseError(2, _))));
    assert!(matches!(PermitFile::new(":DATE 20071323\n:VERSION 2\n"), Err(E::ParseError(1, _))));
    assert!(matches!(PermitFile::new(":DATE 20071023\n:VERSION x\n"), Err(E::ParseError(2, _))));
    match get_date("  :DAT 1  \n") {
        Err(E::ParseError(1, t)) => assert_eq!(t, ":DAT 1"),
        _ => panic!("expected a header error"),
    }
}

#[test]
fn record_field_errors() {
    let key = "12345";
    let cp = &RECORD[..64];
    let parse = |s: &str| rust_s63::permit::parse_permit(s, key);
    assert!(matches!(parse(cp), Err(E::CellPermitTooShort)));
    assert!(matches!(parse(&format!("{},0", cp)), Err(E::CellPermitTooShort)));
    assert!(matches!(parse(&format!("{},0,,GB", cp)), Err(E::CellPermitTooShort)));
    assert!(matches!(parse(&format!("{},2,,GB,", cp)), Err(E::InvalidSli)));
    assert!(matches!(parse(&format!("{},0,x1,GB,", cp)), Err(E::ParseIntErr(_))));
    assert!(matches!(parse(&format!("{},0,256,GB,", cp)), Err(E::ParseIntErr(_))));
    assert!(matches!(parse(&format!("{}0,0,,GB,", cp)), Err(E::ParseError(1, _))));
    let bad_hex = format!("{}Z{},0,,GB,", &cp[..63], "");
    assert!(matches!(parse(&bad_hex), Err(E::FromHex(_))));
    assert!(matches!(parse(&format!("{},0,+7,GB,", cp)), Err(E::ParseIntErr(_))));
    assert!(matches!(parse(&format!("{},0,-7,GB,", cp)), Err(E::ParseIntErr(_))));
    assert!(matches!(parse(&format!("{},0,,GB,c,x", cp)), Err(E::CellPermitTooShort)));
    let rec = parse(&format!("{},1,7,DS,  note \r\n", cp)).unwrap();
    assert_eq!(rec.edition, Some(7));
    assert_eq!(rec.data_server_id, "DS");
    assert_eq!(rec.comment, "  note");
    assert_eq!(rec.sli, SericeLevelIndicator::SinglePurchasePermit);
}

#[test]
fn checksum_rejects_every_prefix_mutation() {
    let key = "12345";
    for i in 0..48 {
        let mut bytes = RECORD.as_bytes().to_vec();
        bytes[i] = if bytes[i] == b'0' { b'1' } else { b'0' };
        let s = String::from_utf8(bytes).unwrap();
        assert!(
            matches!(rust_s63::permit::parse_permit(&s, key), Err(E::InvalidChksum)),
            "byte {} changed",
            i
        );
    }
    assert!(matches!(rust_s63::permit::parse_permit(RECORD, "12346"), Err(E::InvalidChksum)));
}

#[test]
fn equal_keys_are_both_exposed() {
    let p = rust_s63::permit::parse_permit(RECORD, "12345").unwrap();
    assert_eq!(p.cell_permit.key1, p.cell_permit.key2);
    assert_eq!(p.cell_permit.keys().len(), 1);
}

#[test]
fn derived_key_appends_first_char() {
    assert_eq!(rust_s63::permit::hwid6("12345"), b"123451".to_vec());
}

#[test]
fn crc32_is_big_endian() {
    assert_eq!(rust_s63::permit::crc32(b"123456789"), [0xCB, 0xF4, 0x39, 0x26]);
}

#[test]
fn sli_codes() {
    assert_eq!(
        "0".parse::<SericeLevelIndicator>().unwrap(),
        SericeLevelIndicator::SubscriptionPermit
    );
    assert!(matches!(SericeLevelIndicator::from_code("01"), Err(E::InvalidSli)));
}

#[test]
fn empty_index_holds_nothing() {
    let index = PermitIndex::new();
    assert!(index.get_permit("GB100001").is_none());
}

#[test]
fn checksum_tag_comparison() {
    let tag = [0x00, 0x11, 0x22, 0x33, 0x44, 0x55, 0x66, 0x77];
    assert!(rust_s63::permit::check_tag(b"0011223344556677", &tag).is_ok());
    assert!(rust_s63::permit::check_tag(b"00112233445566aA", &[0, 0x11, 0x22, 0x33, 0x44, 0x55, 0x66, 0xAA]).is_ok());
    assert!(matches!(rust_s63::permit::check_tag(b"0011223344556678", &tag), Err(E::InvalidChksum)));
    assert!(matches!(rust_s63::permit::check_tag(b"001122334455667G", &tag), Err(E::FromHex(_))));
}
