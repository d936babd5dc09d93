use ficswitch::saves::{find_steam_id_dir, list_saves, parse_save_header, SaveError};

#[test]
fn test_parse_save_header() {
    // 3 i32 LE values: 13, 46, 264901
    let mut data = Vec::new();
    data.extend_from_slice(&13i32.to_le_bytes());
    data.extend_from_slice(&46i32.to_le_bytes());
    data.extend_from_slice(&264901i32.to_le_bytes());

    let header = parse_save_header(&data).unwrap();
    assert_eq!(header.header_version, 13);
    assert_eq!(header.save_version, 46);
    assert_eq!(header.build_version, 264901);
}

#[test]
fn save_header_negative_and_short() {
    let mut data = Vec::new();
    data.extend_from_slice(&(-1i32).to_le_bytes());
    data.extend_from_slice(&i32::MIN.to_le_bytes());
    data.extend_from_slice(&i32::MAX.to_le_bytes());
    data.push(7);
    let h = parse_save_header(&data).unwrap();
    assert_eq!((h.header_version, h.save_version, h.build_version), (-1, i32::MIN, i32::MAX));
    assert_eq!(parse_save_header(&data[..11]), Err(SaveError::HeaderTooShort));
}

#[test]
fn list_saves_filters_and_sorts() {
    let names: Vec<String> = ["b.sav", "a.sav", ".sav", "notes.txt", "c.SAV", "blueprints", "x.sav.bak", "..sav"]
        .iter()
        .map(|s| s.to_string())
        .collect();
    assert_eq!(list_saves(&names), vec!["..sav".to_string(), "a.sav".to_string(), "b.sav".to_string()]);
}

#[test]
fn steam_id_dir_choice() {
    let names: Vec<String> = ["common", "12345", "76561198000000000", "99999999"].iter().map(|s| s.to_string()).collect();
    assert_eq!(find_steam_id_dir(&names), Some(2));
    let names: Vec<String> = ["common", "12345"].iter().map(|s| s.to_string()).collect();
    assert_eq!(find_steam_id_dir(&names), Some(0));
    assert_eq!(find_steam_id_dir(&Vec::new()), None);
}
