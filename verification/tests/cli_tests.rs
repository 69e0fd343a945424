use dll_rs::cli::{
    parse_args_from, parse_dll_list, proxy_from_env, select_item, Architecture, CliError, Command, Config, ConfigFile,
    SelectError, ValueOption, X32_SYSTEM_PATH, X64_SYSTEM_PATH,
};

fn args(list: &[&str]) -> Vec<String> {
    let mut v = vec!["dll".to_string()];
    for a in list {
        v.push(a.to_string());
    }
    v
}

fn empty_file() -> ConfigFile {
    ConfigFile { system32_path: String::new(), syswow64_path: String::new(), proxy: String::new() }
}

fn run_config(r: Result<Command, CliError>) -> Config {
    match r {
        Ok(Command::Run(c)) => c,
        other => panic!("expected a run, got {:?}", other),
    }
}

#[test]
fn architecture_names_and_paths() {
    assert_eq!(Architecture::X32.name(), "x86");
    assert_eq!(Architecture::X64.name(), "x64");
    let c = run_config(parse_args_from(&args(&["a.dll"]), &empty_file(), None));
    assert_eq!(Architecture::X32.path(&c), X32_SYSTEM_PATH);
    assert_eq!(Architecture::X64.path(&c), X64_SYSTEM_PATH);
}

#[test]
fn config_file_default_and_from_config() {
    let d = ConfigFile::default();
    assert_eq!(d.system32_path, "C:\\Windows\\System32\\");
    assert_eq!(d.syswow64_path, "C:\\Windows\\SysWOW64\\");
    assert_eq!(d.proxy, "");
    let c = run_config(parse_args_from(&args(&["--proxy", "http://p:1", "x.dll"]), &empty_file(), None));
    let f = ConfigFile::from_config(&c);
    assert_eq!(f.system32_path, X64_SYSTEM_PATH);
    assert_eq!(f.proxy, "http://p:1");
    let c2 = run_config(parse_args_from(&args(&["x.dll"]), &empty_file(), None));
    assert_eq!(ConfigFile::from_config(&c2).proxy, "");
}

#[test]
fn saved_settings_come_back() {
    let c = run_config(parse_args_from(
        &args(&["--system32", "D:\\a", "--syswow64", "D:\\b/", "--proxy", "http://q:2", "x.dll"]),
        &empty_file(),
        None,
    ));
    let saved = ConfigFile::from_config(&c);
    let again = run_config(parse_args_from(&args(&["y.dll"]), &saved, Some("http://env:3".to_string())));
    assert_eq!(again.system32_path, "D:\\a\\");
    assert_eq!(again.syswow64_path, "D:\\b/");
    assert_eq!(again.proxy, Some("http://q:2".to_string()));
}

#[test]
fn dll_names_are_lowercased() {
    let c = run_config(parse_args_from(&args(&["DXGI.DLL", "d3dcompiler_47.dll"]), &empty_file(), None));
    assert_eq!(c.dll_names, vec!["dxgi.dll".to_string(), "d3dcompiler_47.dll".to_string()]);
    assert!(!c.force);
    assert!(!c.verbose);
}

#[test]
fn flags_are_read() {
    let c = run_config(parse_args_from(&args(&["-f", "-v", "a.dll"]), &empty_file(), None));
    assert!(c.force);
    assert!(c.verbose);
    let c = run_config(parse_args_from(&args(&["--force", "--verbose", "a.dll"]), &empty_file(), None));
    assert!(c.force && c.verbose);
}

#[test]
fn paths_get_a_separator() {
    let c = run_config(parse_args_from(
        &args(&["--system32", "D:\\dlls", "--syswow64", "D:\\x86\\", "--output", "out", "a.dll"]),
        &empty_file(),
        None,
    ));
    assert_eq!(c.system32_path, "D:\\dlls\\");
    assert_eq!(c.syswow64_path, "D:\\x86\\");
    assert_eq!(c.output_dir, Some("out\\".to_string()));
    let c = run_config(parse_args_from(&args(&["--output", "dir/", "a.dll"]), &empty_file(), None));
    assert_eq!(c.output_dir, Some("dir/".to_string()));
    let c = run_config(parse_args_from(&args(&["--output", "", "a.dll"]), &empty_file(), None));
    assert_eq!(c.output_dir, Some("\\".to_string()));
}

#[test]
fn configuration_file_and_environment_are_used() {
    let file = ConfigFile {
        system32_path: "E:\\s32\\".to_string(),
        syswow64_path: String::new(),
        proxy: String::new(),
    };
    let c = run_config(parse_args_from(&args(&["a.dll"]), &file, Some("http://env:8".to_string())));
    assert_eq!(c.system32_path, "E:\\s32\\");
    assert_eq!(c.syswow64_path, X32_SYSTEM_PATH);
    assert_eq!(c.proxy, Some("http://env:8".to_string()));
    let file = ConfigFile { proxy: "http://file:9".to_string(), ..file };
    let c = run_config(parse_args_from(&args(&["a.dll"]), &file, Some("http://env:8".to_string())));
    assert_eq!(c.proxy, Some("http://file:9".to_string()));
    let c = run_config(parse_args_from(&args(&["--proxy", "http://cli:1", "a.dll"]), &file, None));
    assert_eq!(c.proxy, Some("http://cli:1".to_string()));
}

#[test]
fn restore_and_search() {
    let c = run_config(parse_args_from(&args(&["--restore"]), &empty_file(), None));
    assert_eq!(c.restore_name, Some(String::new()));
    let c = run_config(parse_args_from(&args(&["--restore", "DXGI.dll"]), &empty_file(), None));
    assert_eq!(c.restore_name, Some("dxgi.dll".to_string()));
    let c = run_config(parse_args_from(&args(&["--restore", "-v"]), &empty_file(), None));
    assert_eq!(c.restore_name, Some(String::new()));
    assert!(c.verbose);
    let c = run_config(parse_args_from(&args(&["--search", "DirectX"]), &empty_file(), None));
    assert_eq!(c.search_term, Some("DirectX".to_string()));
    assert!(c.dll_names.is_empty());
}

#[test]
fn help_version_and_save() {
    assert!(matches!(parse_args_from(&args(&["-h"]), &empty_file(), None), Ok(Command::Help)));
    assert!(matches!(parse_args_from(&args(&["a.dll", "--help", "bad"]), &empty_file(), None), Ok(Command::Help)));
    assert!(matches!(parse_args_from(&args(&["-V"]), &empty_file(), None), Ok(Command::Version)));
    assert!(matches!(parse_args_from(&args(&["--version"]), &empty_file(), None), Ok(Command::Version)));
    match parse_args_from(&args(&["--save-config", "--system32", "D:\\x"]), &empty_file(), None) {
        Ok(Command::SaveConfig(c)) => assert_eq!(c.system32_path, "D:\\x\\"),
        other => panic!("expected save, got {:?}", other),
    }
}

#[test]
fn refused_command_lines() {
    assert!(matches!(parse_args_from(&vec!["dll".to_string()], &empty_file(), None), Err(CliError::Usage)));
    assert!(matches!(parse_args_from(&vec![], &empty_file(), None), Err(CliError::Usage)));
    assert!(matches!(parse_args_from(&args(&["-v"]), &empty_file(), None), Err(CliError::NoTarget)));
    assert!(matches!(
        parse_args_from(&args(&["--system32"]), &empty_file(), None),
        Err(CliError::MissingValue(ValueOption::System32))
    ));
    assert!(matches!(
        parse_args_from(&args(&["--syswow64"]), &empty_file(), None),
        Err(CliError::MissingValue(ValueOption::Syswow64))
    ));
    assert!(matches!(
        parse_args_from(&args(&["--proxy"]), &empty_file(), None),
        Err(CliError::MissingValue(ValueOption::Proxy))
    ));
    assert!(matches!(
        parse_args_from(&args(&["--output"]), &empty_file(), None),
        Err(CliError::MissingValue(ValueOption::Output))
    ));
    assert!(matches!(
        parse_args_from(&args(&["--search"]), &empty_file(), None),
        Err(CliError::MissingValue(ValueOption::Search))
    ));
    match parse_args_from(&args(&["--bogus", "a.dll"]), &empty_file(), None) {
        Err(CliError::UnknownOption(s)) => assert_eq!(s, "--bogus"),
        other => panic!("unexpected {:?}", other),
    }
    match parse_args_from(&args(&["a.dll", "Notes.TXT"]), &empty_file(), None) {
        Err(CliError::NotDll(s)) => assert_eq!(s, "Notes.TXT"),
        other => panic!("unexpected {:?}", other),
    }
}

#[test]
fn proxy_from_environment_values() {
    assert_eq!(proxy_from_env(&vec![None, None, None, None, None, None]), None);
    assert_eq!(
        proxy_from_env(&vec![None, Some(String::new()), Some("http://h:1".to_string()), None, Some("x".to_string()), None]),
        Some("http://h:1".to_string())
    );
    assert_eq!(proxy_from_env(&vec![Some("a".to_string()), Some("b".to_string())]), Some("a".to_string()));
}

#[test]
fn selecting_from_a_list() {
    let items = vec!["a.dll".to_string(), "b.dll".to_string(), "c.dll".to_string()];
    assert_eq!(select_item(&items, "2\n"), Ok("b.dll".to_string()));
    assert_eq!(select_item(&items, "  +3 \r\n"), Ok("c.dll".to_string()));
    assert_eq!(select_item(&items, "1"), Ok("a.dll".to_string()));
    assert_eq!(select_item(&items, "0"), Err(SelectError::OutOfRange));
    assert_eq!(select_item(&items, "4"), Err(SelectError::OutOfRange));
    assert_eq!(select_item(&items, "abc"), Err(SelectError::NotANumber));
    assert_eq!(select_item(&items, ""), Err(SelectError::NotANumber));
    assert_eq!(select_item(&items, "-1"), Err(SelectError::NotANumber));
    assert_eq!(select_item(&items, "+"), Err(SelectError::NotANumber));
    assert_eq!(select_item(&items, "99999999999999999999999"), Err(SelectError::NotANumber));
    assert_eq!(select_item(&items, "1 2"), Err(SelectError::NotANumber));
}

#[test]
fn list_file_option() {
    let c = run_config(parse_args_from(&args(&["--file", "list.txt"]), &empty_file(), None));
    assert_eq!(c.list_file, Some("list.txt".to_string()));
    assert!(c.dll_names.is_empty());
    assert!(matches!(
        parse_args_from(&args(&["a.dll", "--file"]), &empty_file(), None),
        Err(CliError::MissingValue(ValueOption::File))
    ));
}

#[test]
fn dll_lists() {
    let text = "# my dlls\r\nDXGI.dll\r\n\n   d3dcompiler_47.dll  \n#skip.dll\nmsvcp140.dll";
    assert_eq!(
        parse_dll_list(text).unwrap(),
        vec!["dxgi.dll".to_string(), "d3dcompiler_47.dll".to_string(), "msvcp140.dll".to_string()]
    );
    assert_eq!(parse_dll_list("").unwrap(), Vec::<String>::new());
    assert_eq!(parse_dll_list("\n\n# only comments\n").unwrap(), Vec::<String>::new());
    match parse_dll_list("a.dll\n  readme.txt \nb.dll") {
        Err(CliError::NotDll(s)) => assert_eq!(s, "readme.txt"),
        other => panic!("unexpected {:?}", other),
    }
}

#[test]
fn white_space_characters() {
    use_white_space();
}

fn use_white_space() {
    for c in ['\t', '\n', '\u{0b}', '\u{0c}', '\r', ' ', '\u{85}', '\u{a0}', '\u{1680}', '\u{2000}', '\u{200a}', '\u{2028}', '\u{2029}', '\u{202f}', '\u{205f}', '\u{3000}'] {
        assert!(dll_rs::text::is_whitespace(c), "{:?}", c);
        assert_eq!(dll_rs::text::is_whitespace(c), c.is_whitespace());
    }
    for c in ['a', '2', '\u{200b}', '\u{feff}', '\u{180e}', '\u{1f}', '_'] {
        assert!(!dll_rs::text::is_whitespace(c), "{:?}", c);
        assert_eq!(dll_rs::text::is_whitespace(c), c.is_whitespace());
    }
    for u in 0u32..0x3100 {
        if let Some(c) = char::from_u32(u) {
            assert_eq!(dll_rs::text::is_whitespace(c), c.is_whitespace(), "U+{:04X}", u);
        }
    }
    let items = vec!["a.dll".to_string(), "b.dll".to_string()];
    assert_eq!(select_item(&items, "\u{3000}2\u{a0}"), Ok("b.dll".to_string()));
}
