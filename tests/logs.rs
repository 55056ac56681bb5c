use chrono::DateTime;
use weblogviz::filter::{default_crawler_signatures, is_crawler, is_media_path, strip_query};
use weblogviz::ingest::{combine, parse_string, parse_text, IngestError, SourceError};
use weblogviz::parse::{parse_line, split_fields};
use weblogviz::stats::{compute_stats, daily_top, top_by_count};
use weblogviz::{Config, LogIndex, Record, RecordFilter, Timestamp};

const FIVE_LINES: &str = "49.206.4.211 - - [29/Oct/2018:07:35:39 -0700] \"GET / HTTP/1.1\" 200 14643 \"http://google.com\" \"Mozilla/5.0 (X11; Ubuntu; Linux x86_64; rv:64.0) Gecko/20100101 Firefox/64.0\"
54.166.138.147 - - [29/Oct/2018:07:39:20 -0700] \"GET /rss.xml HTTP/1.1\" 301 3977 \"-\" \"curl\"
54.166.138.147 - - [29/Oct/2018:07:39:20 -0700] \"GET /index.xml HTTP/1.1\" 200 42318 \"-\" \"curl\"
34.239.107.223 - - [29/Oct/2018:07:40:44 -0700] \"HEAD /rss.xml HTTP/1.1\" 301 3258 \"-\" \"Slackbot 1.0 (+https://api.slack.com/robots)\"
195.159.176.226 - - [28/Oct/2018:11:05:15 +0530] \"GET /index.xml HTTP/1.1\" 200 42318 \"-\" \"Gwene/1.0 (The gwene.org rss-to-news gateway)\"";

fn scenario_config() -> Config {
    Config {
        include_crawlers: true,
        include_media: true,
        include_errors: false,
        ignore_query_params: true,
    }
}

fn all_config() -> Config {
    Config {
        include_crawlers: true,
        include_media: true,
        include_errors: true,
        ignore_query_params: false,
    }
}

fn record(path: &str, utc_seconds: i64) -> Record {
    Record {
        ip: String::from("10.0.0.1"),
        timestamp: Timestamp { utc_seconds, offset_seconds: 0 },
        path: String::from(path),
        status: 200,
        referrer: String::from("-"),
        user_agent: String::from("Mozilla/5.0"),
    }
}

fn index_of(paths: &[&str]) -> LogIndex {
    let mut index = LogIndex::new();
    for p in paths {
        index.insert(record(p, 1540823739));
    }
    index
}

#[test]
fn parse_one_line() {
    let log_line = "49.206.4.211 - - [29/Oct/2018:07:35:39 -0700] \"GET / HTTP/1.1\" 200 14643 \"http://google.com\" \"Mozilla/5.0 (X11; Ubuntu; Linux x86_64; rv:64.0) Gecko/20100101 Firefox/64.0\"";
    let parsed_line = parse_line(log_line).unwrap();

    assert_eq!("49.206.4.211", parsed_line.ip);
    let expected = DateTime::parse_from_rfc3339("2018-10-29T07:35:39-07:00").unwrap();
    assert_eq!(expected.timestamp(), parsed_line.timestamp.utc_seconds);
    assert_eq!(expected.offset().local_minus_utc(), parsed_line.timestamp.offset_seconds);
    assert_eq!("/", parsed_line.path);
    assert_eq!(200, parsed_line.status);
    assert_eq!("http://google.com", parsed_line.referrer);
    assert_eq!(
        "Mozilla/5.0 (X11; Ubuntu; Linux x86_64; rv:64.0) Gecko/20100101 Firefox/64.0",
        parsed_line.user_agent
    );
}

#[test]
fn parse_multiple_lines() {
    let log_db = parse_string(String::from(FIVE_LINES), scenario_config());
    assert_eq!(log_db.count_by_path().len(), 2);
    assert_eq!(log_db.path_indices(&String::from("/rss.xml")).is_some(), false);
    assert_eq!(log_db.path_indices(&String::from("/index.xml")).unwrap().len(), 2);
    assert_eq!(log_db.path_indices(&String::from("/index.xml")).unwrap(), vec![1_usize, 2]);
    assert_eq!(log_db.path_indices(&String::from("/")).unwrap().len(), 1);
    assert_eq!(log_db.path_indices(&String::from("/")).unwrap(), vec![0_usize]);
}

#[test]
fn count_parsed_lines() {
    let parsed_content = parse_string(String::from(FIVE_LINES), scenario_config());
    let stats = compute_stats(&parsed_content);
    assert_eq!(stats[0], (2, String::from("/index.xml")));
}

#[test]
fn five_lines_top_ten() {
    let index = parse_string(String::from(FIVE_LINES), scenario_config());
    let top = top_by_count(&index, 10);
    assert_eq!(top, vec![(2, String::from("/index.xml")), (1, String::from("/"))]);
}

#[test]
fn five_lines_without_crawlers() {
    let mut config = scenario_config();
    config.include_crawlers = false;
    let index = parse_string(String::from(FIVE_LINES), config);
    assert_eq!(index.len(), 1);
    assert_eq!(top_by_count(&index, 10), vec![(1, String::from("/"))]);
    assert!(index.path_indices(&String::from("/index.xml")).is_none());
}

#[test]
fn five_lines_everything_kept() {
    let index = parse_string(String::from(FIVE_LINES), all_config());
    assert_eq!(index.len(), 5);
    assert_eq!(
        top_by_count(&index, 10),
        vec![
            (2, String::from("/rss.xml")),
            (2, String::from("/index.xml")),
            (1, String::from("/")),
        ]
    );
}

#[test]
fn split_fields_round_trip() {
    let line = "::1 - - [01/Jan/2020:00:00:00 +0000] \"POST /a b?x=1 HTTP/2.0\" 404 0 \"-\" \"say \"hi\"\"";
    let f = split_fields(line).unwrap();
    assert_eq!(f.client, "::1");
    assert_eq!(f.timestamp, "01/Jan/2020:00:00:00 +0000");
    assert_eq!(f.method, "POST");
    assert_eq!(f.path, "/a b?x=1");
    assert_eq!(f.version, "2.0");
    assert_eq!(f.status, "404");
    assert_eq!(f.bytes, "0");
    assert_eq!(f.referrer, "-");
    assert_eq!(f.user_agent, "say \"hi\"");
    let rendered = format!(
        "{} - - [{}] \"{} {} HTTP/{}\" {} {} \"{}\" \"{}\"",
        f.client, f.timestamp, f.method, f.path, f.version, f.status, f.bytes, f.referrer, f.user_agent
    );
    assert_eq!(rendered, line);
}

#[test]
fn malformed_lines_rejected() {
    assert!(parse_line("").is_none());
    assert!(parse_line("hello world").is_none());
    assert!(parse_line("1.2.3 - - [29/Oct/2018:07:35:39 -0700] \"GET / HTTP/1.1\" 200 1 \"-\" \"x\"").is_none());
    assert!(parse_line("1.2.3.4 - - [29/Oct/2018:07:35:39 -0700] \"get / HTTP/1.1\" 200 1 \"-\" \"x\"").is_none());
    assert!(parse_line("1.2.3.4 - - [29/Oct/2018:07:35:39 -0700] \"GET / HTTP/1.1\" 20 1 \"-\" \"x\"").is_none());
    assert!(parse_line("1.2.3.4 - - [29/Oct/2018:07:35:39 -0700] \"GET / HTTP/1.1\" 200 1 \"-\" \"x").is_none());
    assert!(parse_line("1.2.3.4 - - [31/Foo/2018:07:35:39 -0700] \"GET / HTTP/1.1\" 200 1 \"-\" \"x\"").is_none());
    assert!(parse_line("1.2.3.4 - - [29/Oct/2018:07:35:39 -0700] \"GET / HTTP/1.1\" 200 1 \"-\" \"x\"").is_some());
}

#[test]
fn malformed_lines_are_listed() {
    let text = "bad line\r\n1.2.3.4 - - [29/Oct/2018:07:35:39 -0700] \"GET /a HTTP/1.1\" 200 1 \"-\" \"x\"\r\nalso bad\n";
    let filter = RecordFilter::new(all_config());
    let outcome = parse_text(text, &filter);
    assert_eq!(outcome.malformed, vec![0_usize, 2]);
    assert_eq!(outcome.index.len(), 1);
    assert_eq!(outcome.index.entries()[0].path, "/a");
}

#[test]
fn offsets_follow_timezone() {
    let line = "1.2.3.4 - - [28/Oct/2018:11:05:15 +0530] \"GET / HTTP/1.1\" 200 1 \"-\" \"x\"";
    let r = parse_line(line).unwrap();
    assert_eq!(r.timestamp.offset_seconds, 19800);
    assert_eq!(r.timestamp.utc_seconds, 1540704915);
    assert_eq!(r.timestamp.utc_day(), 17832);
}

#[test]
fn utc_day_before_epoch() {
    assert_eq!(Timestamp { utc_seconds: -1, offset_seconds: 0 }.utc_day(), -1);
    assert_eq!(Timestamp { utc_seconds: 0, offset_seconds: 0 }.utc_day(), 0);
    assert_eq!(Timestamp { utc_seconds: 86399, offset_seconds: 0 }.utc_day(), 0);
    assert_eq!(Timestamp { utc_seconds: 86400, offset_seconds: 0 }.utc_day(), 1);
}

#[test]
fn media_paths() {
    assert!(is_media_path(&String::from("/style.CSS")));
    assert!(is_media_path(&String::from("/feed.xml")));
    assert!(is_media_path(&String::from("/a/b.Js")));
    assert!(!is_media_path(&String::from("/index.html")));
    assert!(!is_media_path(&String::from("/xml")));
    assert!(!is_media_path(&String::from("/")));
}

#[test]
fn crawler_agents() {
    let sigs = default_crawler_signatures();
    assert_eq!(sigs.len(), 29);
    assert!(is_crawler(&String::from("curl/7.0"), &sigs));
    assert!(is_crawler(&String::from("Slackbot 1.0"), &sigs));
    assert!(is_crawler(&String::from("Go-http-client/1.1"), &sigs));
    assert!(!is_crawler(&String::from("Mozilla/5.0 (X11; Linux) Firefox/64.0"), &sigs));
    assert!(!is_crawler(&String::from("CURL"), &sigs));
    let custom = vec![String::from("Mozilla")];
    assert!(is_crawler(&String::from("Mozilla/5.0"), &custom));
}

#[test]
fn query_is_cut() {
    assert_eq!(strip_query(&String::from("/a?b=1?c")), "/a");
    assert_eq!(strip_query(&String::from("/plain")), "/plain");
    assert_eq!(strip_query(&String::from("?x")), "");
}

#[test]
fn query_kept_without_flag() {
    let text = "1.2.3.4 - - [29/Oct/2018:07:35:39 -0700] \"GET /a?x=1 HTTP/1.1\" 200 1 \"-\" \"x\"\n1.2.3.4 - - [29/Oct/2018:07:35:39 -0700] \"GET /a?x=2 HTTP/1.1\" 200 1 \"-\" \"x\"";
    let kept = parse_string(String::from(text), all_config());
    assert_eq!(kept.count_by_path().len(), 2);
    let mut config = all_config();
    config.ignore_query_params = true;
    let cut = parse_string(String::from(text), config);
    assert_eq!(top_by_count(&cut, 5), vec![(2, String::from("/a"))]);
}

#[test]
fn merge_moves_offsets() {
    let mut a = index_of(&["/x", "/y"]);
    let b = index_of(&["/y", "/z", "/y"]);
    a.merge(b);
    assert_eq!(a.len(), 5);
    assert_eq!(a.path_indices(&String::from("/x")).unwrap(), vec![0_usize]);
    assert_eq!(a.path_indices(&String::from("/y")).unwrap(), vec![1_usize, 2, 4]);
    assert_eq!(a.path_indices(&String::from("/z")).unwrap(), vec![3_usize]);
    assert_eq!(a.entries()[3].path, "/z");
}

#[test]
fn merge_order_keeps_counts() {
    let mut ab = index_of(&["/x", "/y"]);
    ab.merge(index_of(&["/y", "/z"]));
    let mut ba = index_of(&["/y", "/z"]);
    ba.merge(index_of(&["/x", "/y"]));
    assert_eq!(top_by_count(&ab, 10), top_by_count(&ba, 10));
    assert_eq!(top_by_count(&ab, 10)[0], (2, String::from("/y")));
}

#[test]
fn top_ties_break_by_greater_key() {
    let index = index_of(&["/a", "/b", "/c", "/b", "/a"]);
    assert_eq!(
        compute_stats(&index),
        vec![(2, String::from("/b")), (2, String::from("/a")), (1, String::from("/c"))]
    );
    assert_eq!(top_by_count(&index, 1), vec![(2, String::from("/b"))]);
    assert_eq!(top_by_count(&index, 0), vec![]);
    assert_eq!(top_by_count(&index, 9).len(), 3);
}

#[test]
fn top_of_empty_index() {
    let index = LogIndex::new();
    assert!(compute_stats(&index).is_empty());
    assert!(top_by_count(&index, 3).is_empty());
    assert!(daily_top(&index, 3, 3).is_empty());
}

#[test]
fn daily_top_by_day() {
    let index = parse_string(String::from(FIVE_LINES), all_config());
    let days = daily_top(&index, 7, 10);
    assert_eq!(days.len(), 2);
    assert_eq!(days[0].day, 17833);
    assert_eq!(days[0].hits, 4);
    assert_eq!(
        days[0].top,
        vec![(2, String::from("/rss.xml")), (1, String::from("/index.xml")), (1, String::from("/"))]
    );
    assert_eq!(days[1].day, 17832);
    assert_eq!(days[1].hits, 1);
    assert_eq!(days[1].top, vec![(1, String::from("/index.xml"))]);
    let recent = daily_top(&index, 1, 1);
    assert_eq!(recent.len(), 1);
    assert_eq!(recent[0].day, 17833);
    assert_eq!(recent[0].top, vec![(2, String::from("/rss.xml"))]);
}

#[test]
fn records_of_one_day() {
    let mut index = LogIndex::new();
    index.insert(record("/a", 86400 * 3 + 5));
    index.insert(record("/b", 86400 * 2));
    index.insert(record("/c", 86400 * 3));
    let on = index.records_on_day(3);
    assert_eq!(on.len(), 2);
    assert_eq!(on[0].path, "/a");
    assert_eq!(on[1].path, "/c");
    assert_eq!(index.day_hits(2), 1);
    assert_eq!(index.day_hits(9), 0);
    assert_eq!(index.days_descending(), vec![3_i64, 2]);
}

#[test]
fn combine_reports_failures() {
    let results = vec![
        Ok(index_of(&["/a"])),
        Err(SourceError { location: String::from("missing.log"), message: String::from("not found") }),
        Ok(index_of(&["/b", "/a"])),
    ];
    let combined = match combine(results) {
        Ok(c) => c,
        Err(_) => panic!("a source was read"),
    };
    assert_eq!(combined.failed, vec![1_usize]);
    assert_eq!(combined.index.len(), 3);
    assert_eq!(combined.index.path_indices(&String::from("/a")).unwrap(), vec![0_usize, 2]);
}

#[test]
fn combine_all_failed() {
    let results: Vec<Result<LogIndex, SourceError>> = vec![
        Err(SourceError { location: String::from("a"), message: String::from("x") }),
        Err(SourceError { location: String::from("b"), message: String::from("y") }),
    ];
    assert!(matches!(combine(results), Err(IngestError::AllSourcesFailed)));
    let none: Vec<Result<LogIndex, SourceError>> = Vec::new();
    match combine(none) {
        Ok(c) => {
            assert_eq!(c.index.len(), 0);
            assert!(c.failed.is_empty());
        }
        Err(_) => panic!("no sources is no failure"),
    }
}
