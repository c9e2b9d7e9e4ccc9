use pget::context::LinkStore;
use pget::download::{throughput_bps, Transfer};
use pget::error::Error;
use pget::link::parse_line;
use pget::lines::split_into_lines;
use pget::name::u64_to_dec;

#[test]
fn multiple_with_extensions() {
    let url = parse_line("https://example.com/test.png").unwrap();
    let mut store = LinkStore::default();

    assert_eq!(store.choose_name(&url), "test.png");
    assert_eq!(store.choose_name(&url), "test.png.1");
}

#[test]
fn multiple_without_extensions() {
    let url = parse_line("https://example.com/").unwrap();
    let mut store = LinkStore::default();

    assert_eq!(store.choose_name(&url), "index.html");
    assert_eq!(store.choose_name(&url), "index.html.1");
}

#[test]
fn repeated_allocation_never_repeats_a_name() {
    let url = parse_line("https://example.com/test.png").unwrap();
    let mut store = LinkStore::default();
    let names: Vec<String> = (0..5).map(|_| store.choose_name(&url)).collect();
    assert_eq!(
        names,
        vec!["test.png", "test.png.1", "test.png.2", "test.png.3", "test.png.4"]
    );
    for i in 0..names.len() {
        for j in 0..i {
            assert_ne!(names[i], names[j]);
        }
    }
}

#[test]
fn naming_is_deterministic_across_runs() {
    let inputs = [
        "https://example.com/a.txt",
        "https://example.com/b/a.txt",
        "https://example.com/",
        "https://example.com/dir/",
        "https://example.com/a.txt",
    ];
    let run = || -> Vec<String> {
        let mut store = LinkStore::default();
        inputs
            .iter()
            .map(|u| store.choose_name(&parse_line(u).unwrap()))
            .collect()
    };
    let first = run();
    let second = run();
    assert_eq!(first, second);
    assert_eq!(
        first,
        vec!["a.txt", "a.txt.1", "index.html", "index.html.1", "a.txt.2"]
    );
}

#[test]
fn collisions_are_counted_by_base_name_not_by_url() {
    let one = parse_line("https://one.example/files/report.pdf").unwrap();
    let two = parse_line("https://two.example/other/report.pdf").unwrap();
    let mut store = LinkStore::default();
    assert_eq!(store.choose_name(&one), "report.pdf");
    assert_eq!(store.choose_name(&two), "report.pdf.1");
}

#[test]
fn claims_come_in_reverse_input_order() {
    let text = "https://a.example/a.txt\nhttps://b.example/b.txt\nhttps://c.example/c.txt";
    let (mut store, rejected) = LinkStore::new(text);
    assert!(rejected.is_empty());

    let (name_c, link_c) = store.claim_next().unwrap();
    assert_eq!(link_c.url, "https://c.example/c.txt");
    assert_eq!(name_c, "c.txt");
    let (_, link_b) = store.claim_next().unwrap();
    assert_eq!(link_b.url, "https://b.example/b.txt");
    let (_, link_a) = store.claim_next().unwrap();
    assert_eq!(link_a.url, "https://a.example/a.txt");

    assert!(store.claim_next().is_none());
    assert!(store.claim_next().is_none());
}

#[test]
fn exactly_m_claims_succeed() {
    let text = "https://example.com/1\nhttps://example.com/2\nhttps://example.com/3\nhttps://example.com/4";
    let (mut store, rejected) = LinkStore::new(text);
    assert!(rejected.is_empty());
    let mut succeeded = 0;
    for _ in 0..10 {
        if store.claim_next().is_some() {
            succeeded += 1;
        }
    }
    assert_eq!(succeeded, 4);
}

#[test]
fn empty_and_invalid_input_yield_no_links() {
    let (mut empty, rejected) = LinkStore::new("");
    assert!(rejected.is_empty());
    assert!(empty.claim_next().is_none());

    let (mut bad, rejected) = LinkStore::new("   \n\nnot a valid line\n");
    assert_eq!(rejected, vec!["   ", "", "not a valid line"]);
    assert!(bad.claim_next().is_none());
}

#[test]
fn invalid_lines_are_skipped_not_fatal() {
    let text = "https://example.com/good.bin\nthis is no url\nhttps://example.com/also.bin";
    let (mut store, rejected) = LinkStore::new(text);
    assert_eq!(rejected, vec!["this is no url"]);
    assert_eq!(store.claim_next().unwrap().1.url, "https://example.com/also.bin");
    assert_eq!(store.claim_next().unwrap().1.url, "https://example.com/good.bin");
    assert!(store.claim_next().is_none());
}

#[test]
fn one_failed_transfer_leaves_later_claims_intact() {
    let (mut store, _) = LinkStore::new("https://a.example/x.bin\nhttps://b.example/y.bin");

    let (_, failing) = store.claim_next().unwrap();
    let failure = Error::Http(format!("connection reset while fetching {}", failing.url));
    assert!(failure.is_http());

    let (name, link) = store.claim_next().unwrap();
    assert_eq!(link.url, "https://a.example/x.bin");
    assert_eq!(name, "x.bin");
    assert!(store.claim_next().is_none());
}

#[test]
fn parsing_normalizes_the_url() {
    let link = parse_line("HTTPS://EXAMPLE.COM/Path/File.TXT").unwrap();
    assert_eq!(link.url, "https://example.com/Path/File.TXT");
    assert_eq!(link.base_name(), "File.TXT");
}

#[test]
fn urls_without_path_segments_fall_back() {
    let link = parse_line("mailto:someone@example.com").unwrap();
    assert!(link.last_segment.is_none());
    assert_eq!(link.base_name(), "index.html");
}

#[test]
fn rejected_lines_do_not_parse() {
    assert!(parse_line("definitely not a url").is_none());
    assert!(parse_line("").is_none());
    assert!(parse_line("/relative/path/only").is_none());
}

#[test]
fn transfer_accounts_every_chunk() {
    let mut transfer = Transfer::new();
    assert_eq!(transfer.total_bytes(), 0);
    transfer.record_chunk(3);
    transfer.record_chunk(4);
    transfer.record_chunk(5);
    assert_eq!(transfer.total_bytes(), 12);
}

#[test]
fn throughput_is_rounded_bytes_per_second() {
    // 1000 bytes over 2 s -> 500 B/s
    assert_eq!(throughput_bps(1000, 2000), 500);
    // 3 bytes over 2 s -> 1.5 rounds up to 2
    assert_eq!(throughput_bps(3, 2000), 2);
    // 1 byte over 3 s -> 0.33 rounds down to 0
    assert_eq!(throughput_bps(1, 3000), 0);
    // a megabyte in one second comes out unchanged
    assert_eq!(throughput_bps(1_048_576, 1000), 1_048_576);
}

#[test]
fn decimal_rendering_is_exact() {
    assert_eq!(u64_to_dec(0), "0");
    assert_eq!(u64_to_dec(7), "7");
    assert_eq!(u64_to_dec(10), "10");
    assert_eq!(u64_to_dec(123), "123");
    assert_eq!(u64_to_dec(9876543210), "9876543210");
}

#[test]
fn error_keeps_its_message_and_origin() {
    let http = Error::Http("timed out".to_string());
    let io = Error::Io("permission denied".to_string());
    assert!(http.is_http());
    assert!(!io.is_http());
    assert_eq!(http.message(), "timed out");
    assert_eq!(io.message(), "permission denied");
}

#[test]
fn line_splitting_handles_crlf_and_final_newline() {
    let lines = split_into_lines("a\r\nb\nc");
    assert_eq!(lines, vec!["a", "b", "c"]);
    let lines = split_into_lines("a\nb\n");
    assert_eq!(lines, vec!["a", "b"]);
    let lines = split_into_lines("lone\r");
    assert_eq!(lines, vec!["lone\r"]);
    let lines = split_into_lines("");
    assert!(lines.is_empty());
}
