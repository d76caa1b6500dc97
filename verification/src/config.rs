//! Configuration of one scrape target.
use vstd::prelude::*;
use vstd::utf8::encode_utf8;

verus! {

/// One scrape target: where to fetch, how often, where to write, and how to ask.
#[derive(Debug, Clone)]
pub struct DownloaderConfig {
    /// Full URL of the dashboard page.
    pub url: String,
    /// Seconds to wait between scrapes of this target.
    pub interval_seconds: u64,
    /// Directory where the output file is written.
    pub output_dir: String,
    /// Name of the JSON output file.
    pub output_file: String,
    /// `User-Agent` header sent with every request.
    pub user_agent: String,
    /// HTTP request timeout in seconds.
    pub timeout_seconds: u64,
}

impl Default for DownloaderConfig {
    fn default() -> (c: Self)
        ensures
            c.url@ == Seq::<char>::empty(),
            c.interval_seconds == 1,
            c.output_dir@ == "downloaded_pages"@,
            c.output_file@ == "xlx.json"@,
            c.user_agent@ == "Mozilla/5.0 (compatible; RustScraper/1.0)"@,
            c.timeout_seconds == 30,
    {
        DownloaderConfig {
            url: String::new(),
            interval_seconds: 1,
            output_dir: "downloaded_pages".to_owned(),
            output_file: "xlx.json".to_owned(),
            user_agent: "Mozilla/5.0 (compatible; RustScraper/1.0)".to_owned(),
            timeout_seconds: 30,
        }
    }
}

/// A byte that an HTTP header value may hold: a tab, or any byte from 32 up
/// except 127.
pub open spec fn header_byte_ok(b: u8) -> bool {
    (b >= 32 && b != 127) || b == 9
}

/// `s` can be sent as an HTTP header value: every byte of its UTF-8 encoding may
/// stand in one.
pub open spec fn header_value_ok(s: Seq<char>) -> bool {
    forall|i: int| 0 <= i < encode_utf8(s).len() ==> header_byte_ok(#[trigger] encode_utf8(s)[i])
}

/// Whether `reqwest::header::HeaderValue::from_str(s)` (http 0.2.12, which
/// reqwest re-exports) succeeds. Its source checks each byte of `s` with
/// `is_valid`: `b >= 32 && b != 127 || b == b'\t'`.
#[verifier::external_body]
fn header_value_parses(s: &str) -> (r: bool)
    ensures
        r == header_value_ok(s@),
{
    reqwest::header::HeaderValue::from_str(s).is_ok()
}

impl DownloaderConfig {
    /// Whether the user agent can be sent as the `User-Agent` header.
    pub fn user_agent_is_valid(&self) -> (r: bool)
        ensures
            r == header_value_ok(self.user_agent@),
    {
        header_value_parses(self.user_agent.as_str())
    }

    /// The path of the output file: `<output_dir>/<output_file>`.
    pub fn output_path(&self) -> (p: String)
        ensures
            p@ == self.output_dir@ + seq!['/'] + self.output_file@,
    {
        let mut cs = crate::text::chars_of(self.output_dir.as_str());
        cs.push('/');
        crate::text::push_all(&mut cs, crate::text::chars_of(self.output_file.as_str()).as_slice());
        crate::text::string_from_chars(cs.as_slice())
    }
}

} // verus!
