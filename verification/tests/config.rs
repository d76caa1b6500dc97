use xlxscraper::config::DownloaderConfig;

#[test]
fn default_config() {
    let c = DownloaderConfig::default();
    assert_eq!(c.url, "");
    assert_eq!(c.interval_seconds, 1);
    assert_eq!(c.output_dir, "downloaded_pages");
    assert_eq!(c.output_file, "xlx.json");
    assert_eq!(c.user_agent, "Mozilla/5.0 (compatible; RustScraper/1.0)");
    assert_eq!(c.timeout_seconds, 30);
}

#[test]
fn output_path_joins_dir_and_file() {
    let mut c = DownloaderConfig::default();
    assert_eq!(c.output_path(), "downloaded_pages/xlx.json");
    c.output_dir = "Dir/subDir1".to_string();
    c.output_file = "filename.json".to_string();
    assert_eq!(c.output_path(), "Dir/subDir1/filename.json");
}

#[test]
fn user_agent_validity_follows_header_rules() {
    let mut c = DownloaderConfig::default();
    assert!(c.user_agent_is_valid());
    for (ua, ok) in [("a\tb", true), ("é", true), ("a\nb", false), ("\u{7f}", false), ("", true)] {
        c.user_agent = ua.to_string();
        assert_eq!(c.user_agent_is_valid(), ok, "{ua:?}");
    }
}
