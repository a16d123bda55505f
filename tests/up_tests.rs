use rust_s63::up::{is_hex, validator, PermitErr, UserPermit};

#[test]
fn is_hex_test() {
    assert_eq!("0123456789AaBbCcDdEeFf".chars().all(is_hex), true);
    assert_eq!("0123456789AaBbCcDdEeFfGg".chars().all(is_hex), false);
}

#[test]
fn encrypt_decrypt_test() -> Result<(), PermitErr> {
    let key1 = "12345";
    let up1 = UserPermit::new("12345", "1111")?;
    let key2 = "abcde";
    let up2 = UserPermit::new("12ab5", "1254")?;
    assert_eq!(up1, UserPermit::decrypt(up1.encrypt(key1)?.as_str(), key1)?);

    assert_eq!(up2, UserPermit::decrypt(up2.encrypt(key2)?.as_str(), key2)?);
    Ok(())
}

#[test]
fn decrypt() -> Result<(), PermitErr> {
    let key = "10121";
    let up = "66B5CBFDF7E4139D5B6086C23130";
    let expected = UserPermit::new("12345", "3130")?;
    assert_eq!(expected, UserPermit::decrypt(up, key)?);
    Ok(())
}

#[test]
fn encrypt() -> Result<(), PermitErr> {
    let key = "10121";
    let up = UserPermit::new("12345", "3130")?;
    let expected = "66B5CBFDF7E4139D5B6086C23130";
    assert_eq!(expected, up.encrypt(key)?);
    Ok(())
}

#[test]
fn permit_accessors() {
    let up = UserPermit::new("12ab5", "1254").unwrap();
    assert_eq!(up.hwid(), "12ab5");
    assert_eq!(up.id(), "1254");
}

#[test]
fn user_permit_errors() {
    assert!(matches!(
        UserPermit::new("1234", "1111"),
        Err(PermitErr::WrongLength { actual: 4, expected: 5 })
    ));
    assert!(matches!(UserPermit::new("1234g", "1111"), Err(PermitErr::NonHex)));
    assert!(matches!(
        UserPermit::new("12345", "11111"),
        Err(PermitErr::WrongLength { actual: 5, expected: 4 })
    ));
    assert!(matches!(
        UserPermit::decrypt("66B5CBFDF7E4139D5B6086C23130", "1012"),
        Err(PermitErr::WrongLength { actual: 4, expected: 5 })
    ));
    assert!(matches!(
        UserPermit::decrypt("66B5CBFDF7E4139D5B6086C2313", "10121"),
        Err(PermitErr::WrongLength { actual: 27, expected: 28 })
    ));
    assert!(matches!(
        UserPermit::decrypt("66B5CBFDF7E4139D5B6086C2313X", "10121"),
        Err(PermitErr::NonHex)
    ));
    assert!(matches!(
        UserPermit::decrypt("66B5CBFDF7E4139D5B6086C33130", "10121"),
        Err(PermitErr::HashMisMatch)
    ));
    let up = UserPermit::new("12345", "3130").unwrap();
    assert!(matches!(up.encrypt("1012"), Err(PermitErr::WrongLength { actual: 4, expected: 5 })));
    assert!(matches!(up.encrypt("1012x"), Err(PermitErr::NonHex)));
    assert!(validator("abc", 3).is_ok());
}

#[test]
fn wrong_key_changes_the_hardware_id() {
    let up = UserPermit::new("12345", "3130").unwrap();
    let text = up.encrypt("10121").unwrap();
    match UserPermit::decrypt(&text, "10122") {
        Ok(other) => assert_ne!(other, up),
        Err(e) => assert!(matches!(e, PermitErr::Utf8Err(_))),
    }
}

#[test]
fn permit_text_joins_the_parts() {
    assert_eq!(
        rust_s63::up::permit_text("66B5CBFDF7E4139D", 0x5B6086C2, "3130"),
        "66B5CBFDF7E4139D5B6086C23130"
    );
}

#[test]
fn hardware_id_from_block() {
    let id = rust_s63::up::hwid_from_block(&[0x31, 0x32, 0x33, 0x34, 0x35, 3, 3, 3]).unwrap();
    assert_eq!(id, "12345");
    assert!(matches!(
        rust_s63::up::hwid_from_block(&[0xff, 0x32, 0x33, 0x34, 0x35, 3, 3, 3]),
        Err(PermitErr::Utf8Err(_))
    ));
}
