use std::io::Write;

use dll_rs::installer::{
    backup_file_name, extract_dll, find_backup, find_dll_entry, has_pe_magic, list_backups, parse_backup_name,
    restore_choice, ExtractError, RestoreChoice,
};

fn zip_of(entries: &[(&str, &[u8])]) -> Vec<u8> {
    let mut w = zip::ZipWriter::new(std::io::Cursor::new(Vec::new()));
    for (name, data) in entries {
        w.start_file(*name, zip::write::SimpleFileOptions::default()).unwrap();
        w.write_all(data).unwrap();
    }
    w.finish().unwrap().into_inner()
}

#[test]
fn pe_signature() {
    assert!(has_pe_magic(b"MZ"));
    assert!(has_pe_magic(b"MZ\x90\x00"));
    assert!(!has_pe_magic(b"M"));
    assert!(!has_pe_magic(b""));
    assert!(!has_pe_magic(b"ZM"));
    assert!(!has_pe_magic(b"PK\x03\x04"));
}

#[test]
fn backup_names() {
    assert_eq!(backup_file_name("C:\\Windows\\System32\\dxgi.dll"), "C_Windows_System32_dxgi.dll.bak");
    assert_eq!(backup_file_name("D:\\out\\a.dll"), "D_out_a.dll.bak");
    assert_eq!(backup_file_name(""), ".bak");
    assert_eq!(backup_file_name("a:b:c"), "abc.bak");
}

#[test]
fn parsing_backup_names() {
    assert_eq!(
        parse_backup_name("C_Windows_System32_dxgi.dll.bak"),
        Some("C:\\Windows\\System32\\dxgi.dll".to_string())
    );
    assert_eq!(parse_backup_name("C_x.bak"), Some("C:\\x".to_string()));
    assert_eq!(parse_backup_name("_x.bak"), Some(":\\x".to_string()));
    assert_eq!(parse_backup_name("nounderscore.bak"), None);
    assert_eq!(parse_backup_name("C_Windows_dxgi.dll"), None);
    assert_eq!(parse_backup_name(".bak"), None);
    assert_eq!(parse_backup_name("C_a__b.bak"), Some("C:\\a\\\\b".to_string()));
}

#[test]
fn backup_name_roundtrip() {
    for p in ["C:\\Windows\\System32\\dxgi.dll", "D:\\dlls\\x86\\d3dx9.dll", "E:\\a.dll"] {
        assert_eq!(parse_backup_name(&backup_file_name(p)), Some(p.to_string()));
    }
}

#[test]
fn listing_backups() {
    let names: Vec<String> = vec![
        "D_x_b.dll.bak",
        "readme.txt",
        "C_Windows_System32_dxgi.dll.bak",
        ".bak",
        "noparse.bak",
        "C_Windows_SysWOW64_DXGI.dll.bak",
        "C_Windows_System32_dxgi.dll.bak",
    ]
    .into_iter()
    .map(|s| s.to_string())
    .collect();
    let all = list_backups(&names, None);
    let expected: Vec<(String, usize)> = vec![
        ("C:\\Windows\\SysWOW64\\DXGI.dll".to_string(), 5),
        ("C:\\Windows\\System32\\dxgi.dll".to_string(), 2),
        ("C:\\Windows\\System32\\dxgi.dll".to_string(), 6),
        ("D:\\x\\b.dll".to_string(), 0),
    ];
    assert_eq!(all, expected);
    assert_eq!(list_backups(&names, Some("")), expected);
    let filtered = list_backups(&names, Some("DxGi"));
    assert_eq!(filtered, expected[..3].to_vec());
    assert_eq!(list_backups(&names, Some("syswow")), vec![expected[0].clone()]);
    assert_eq!(list_backups(&names, Some("nothing")), vec![]);
    assert_eq!(list_backups(&vec![], None), vec![]);
}

#[test]
fn choosing_the_dll_in_an_archive() {
    let data = zip_of(&[
        ("readme.txt", b"hello"),
        ("x86/other.dll", b"MZ.."),
        ("x86/DXGI.DLL", b"MZ.."),
        ("x64/dxgi.dll", b"MZ!!"),
    ]);
    // The upper-case entry does not end in ".dll" exactly.
    assert_eq!(find_dll_entry(&data, "dxgi.dll"), Ok(3));
    assert_eq!(find_dll_entry(&data, "DXGI.dll"), Ok(3));
    assert_eq!(find_dll_entry(&data, "other.dll"), Ok(1));
    assert_eq!(find_dll_entry(&data, "missing.dll"), Err(ExtractError::NoMatchingDll));
    let data = zip_of(&[("lib/ABC.dll", b"MZ")]);
    assert_eq!(find_dll_entry(&data, "abc.dll"), Ok(0));
    assert_eq!(find_dll_entry(&data, "bc.dll"), Ok(0));
    assert_eq!(find_dll_entry(b"not a zip file", "abc.dll"), Err(ExtractError::OpenArchive));
    assert_eq!(find_dll_entry(&zip_of(&[]), "abc.dll"), Err(ExtractError::NoMatchingDll));
}

#[test]
fn unreadable_entry_ends_the_search() {
    let mut data = zip_of(&[("a.txt", b"x"), ("b/abc.dll", b"MZ")]);
    // Break the local header of the first entry; the central directory stays intact.
    assert_eq!(&data[0..4], b"PK\x03\x04");
    data[0] = b'X';
    assert_eq!(find_dll_entry(&data, "abc.dll"), Err(ExtractError::ReadEntry));
}

#[test]
fn extracting_the_dll() {
    let data = zip_of(&[("readme.txt", b"hello"), ("x64/dxgi.dll", b"MZ-the-dll-bytes")]);
    let x = extract_dll(&data, "DXGI.DLL").unwrap();
    assert_eq!(x.entry_count, 2);
    assert_eq!(x.index, 1);
    assert_eq!(x.data, b"MZ-the-dll-bytes".to_vec());
    assert!(matches!(extract_dll(&data, "other.dll"), Err(ExtractError::NoMatchingDll)));
    assert!(matches!(extract_dll(b"junk", "other.dll"), Err(ExtractError::OpenArchive)));
}

#[test]
fn corrupt_entry_data() {
    let mut w = zip::ZipWriter::new(std::io::Cursor::new(Vec::new()));
    let stored = zip::write::SimpleFileOptions::default().compression_method(zip::CompressionMethod::Stored);
    w.start_file("a.dll", stored).unwrap();
    w.write_all(b"MZ-unique-content-1234").unwrap();
    let mut data = w.finish().unwrap().into_inner();
    let at = data.windows(6).position(|win| win == b"unique").unwrap();
    data[at] = b'U';
    assert_eq!(find_dll_entry(&data, "a.dll"), Ok(0));
    assert!(matches!(extract_dll(&data, "a.dll"), Err(ExtractError::ReadData)));
}

#[test]
fn choosing_the_backup_to_restore() {
    let one = vec![("C:\\Windows\\System32\\dxgi.dll".to_string(), 3)];
    assert!(matches!(restore_choice(&one, "dxgi"), RestoreChoice::Direct(0)));
    match restore_choice(&one, "") {
        RestoreChoice::Ask(paths) => assert_eq!(paths, vec!["C:\\Windows\\System32\\dxgi.dll".to_string()]),
        _ => panic!("expected a question"),
    }
    assert!(matches!(restore_choice(&vec![], "dxgi"), RestoreChoice::NoBackup));
    let two = vec![("A:\\a.dll".to_string(), 0), ("B:\\b.dll".to_string(), 1), ("A:\\a.dll".to_string(), 2)];
    match restore_choice(&two, "dll") {
        RestoreChoice::Ask(paths) => assert_eq!(paths, vec!["A:\\a.dll", "B:\\b.dll", "A:\\a.dll"]),
        _ => panic!("expected a question"),
    }
    assert_eq!(find_backup(&two, "B:\\b.dll"), Some(1));
    assert_eq!(find_backup(&two, "A:\\a.dll"), Some(0));
    assert_eq!(find_backup(&two, "C:\\c.dll"), None);
}
