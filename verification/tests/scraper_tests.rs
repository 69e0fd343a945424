use dll_rs::cli::{parse_args_from, Architecture, Command, ConfigFile};
use dll_rs::scraper::{
    after_failed_attempt, extract_download_url, find_download_pages, search_results, Dll, InstallAction,
    RetryStep, ScrapeError,
};

const PAGE: &str = r#"<html>
<section class="file-info-grid">
  <div class="right-pane"><p>10.0.1</p><p>32</p><p>zh</p></div>
  <a href="/download/x86-first/?x=1" data-ga-action="dl">Download</a>
</section>
<section class="file-info-grid">
  <div class="right-pane"><p>10.0.2</p><p>32</p></div>
  <a href="/download/x86-second/" data-ga-action="dl">Download</a>
</section>
<section class="file-info-grid">
  <div class="left-pane"><p>9</p><p>64</p></div>
  <a href="/download/no-meta/" data-ga-action="dl">Download</a>
</section>
<section class="file-info-grid">
  <div class="right-pane"><p>10.0.3</p><p>64</p></div>
  <a href="/download/x64/" data-ga-action="dl">Download</a>
</section>
</html>"#;

#[test]
fn download_pages_of_a_dll() {
    let pages = find_download_pages(PAGE).unwrap();
    assert_eq!(pages.x32, "https://cn.dll-files.com/download/x86-first/?x=1");
    assert_eq!(pages.x64, "https://cn.dll-files.com/download/x64/");
}

#[test]
fn download_pages_missing() {
    let only32 = r#"<section class="file-info-grid"><div class="right-pane"><p>1</p><p>32</p></div><a href="/d32" data-ga-action="x"></a></section>"#;
    let pages = find_download_pages(only32).unwrap();
    assert_eq!(pages.x32, "https://cn.dll-files.com/d32");
    assert_eq!(pages.x64, "");
    let pages = find_download_pages("<html>nothing</html>").unwrap();
    assert_eq!(pages.x32, "");
    assert_eq!(pages.x64, "");
    assert!(matches!(find_download_pages("<div class=\"error-404\"></div>"), Err(ScrapeError::PageNotFound)));
}

#[test]
fn download_url_of_a_page() {
    let page = r#"<script>var downloadUrl = "https://dl.example/f.zip?a=1&amp;b=2&#038;c=3";</script>"#;
    assert_eq!(extract_download_url(page), Ok("https://dl.example/f.zip?a=1&b=2c=3".to_string()));
    let page = r#"downloadUrl="https://dl.example/g.zip";"#;
    assert_eq!(extract_download_url(page), Ok("https://dl.example/g.zip".to_string()));
    assert_eq!(extract_download_url("no link here"), Err(ScrapeError::NoDownloadLink));
}

#[test]
fn search_results_from_links() {
    let page = r#"<a href="/dxgi.dll.html">dxgi</a> <a  href="/d3dx9_43.dll.html" class="x">
        <a href="/about.html"> <a href="/D3DX9_42.DLL.html"> <a href="/dxgi.dll.html"> <a href="/a.dll.html.html">"#;
    assert_eq!(
        search_results(page),
        Ok(vec!["a.dll".to_string(), "d3dx9_43.dll".to_string(), "dxgi.dll".to_string()])
    );
}

#[test]
fn search_results_from_text() {
    let page = "results: XInput1_3.DLL and msvcp140.dll and xinput1_3.dll end";
    assert_eq!(search_results(page), Ok(vec!["msvcp140.dll".to_string(), "xinput1_3.dll".to_string()]));
    assert_eq!(search_results("nothing"), Ok(vec![]));
}

#[test]
fn retry_schedule() {
    assert_eq!(after_failed_attempt(0), RetryStep::Retry { attempt: 1, delay_ms: 500 });
    assert_eq!(after_failed_attempt(1), RetryStep::Retry { attempt: 2, delay_ms: 1000 });
    assert_eq!(after_failed_attempt(2), RetryStep::Retry { attempt: 3, delay_ms: 2000 });
    assert_eq!(after_failed_attempt(3), RetryStep::GiveUp);
    assert_eq!(after_failed_attempt(7), RetryStep::GiveUp);
}

fn config_of(list: &[&str]) -> dll_rs::cli::Config {
    let mut v = vec!["dll".to_string()];
    for a in list {
        v.push(a.to_string());
    }
    let file = ConfigFile { system32_path: String::new(), syswow64_path: String::new(), proxy: String::new() };
    match parse_args_from(&v, &file, None) {
        Ok(Command::Run(c)) => c,
        other => panic!("unexpected {:?}", other),
    }
}

#[test]
fn destinations_and_install_actions() {
    let c = config_of(&["dxgi.dll"]);
    let d = Dll::new("dxgi.dll".to_string(), &c);
    assert_eq!(d.name, "dxgi.dll");
    assert_eq!(d.destination(Architecture::X32), "C:\\Windows\\SysWOW64\\dxgi.dll");
    assert_eq!(d.destination(Architecture::X64), "C:\\Windows\\System32\\dxgi.dll");
    assert_eq!(d.install_action(true), InstallAction::SkipExisting);
    assert_eq!(d.install_action(false), InstallAction::Install { backup_first: false });

    let c = config_of(&["-f", "dxgi.dll"]);
    let d = Dll::new("dxgi.dll".to_string(), &c);
    assert_eq!(d.install_action(true), InstallAction::Install { backup_first: true });
    assert_eq!(d.install_action(false), InstallAction::Install { backup_first: false });

    let c = config_of(&["--output", "D:\\downloads", "dxgi.dll"]);
    let d = Dll::new("dxgi.dll".to_string(), &c);
    assert_eq!(d.destination(Architecture::X32), "D:\\downloads\\dxgi.dll");
    assert_eq!(d.destination(Architecture::X64), "D:\\downloads\\dxgi.dll");
    assert_eq!(d.install_action(true), InstallAction::Install { backup_first: false });
}
