use log_analyzer::analyzer::{sort_by_time, LogAnalyzer};
use log_analyzer::codes::{create_http_hashmap, CodeTable};
use log_analyzer::corpus::{dedup_logs, parse_log};
use log_analyzer::grouping::{group_logs_by, Granularity};
use log_analyzer::log::{parse_line, LineError};
use log_analyzer::metrics::{
    fit_plan, rate_statistic, total_errors, weighted_errors, FitPlan, Fraction, Metric, ModelType,
};
use log_analyzer::series::{
    by_series, cumulative_ratio_series, cumulative_series, fraction_le, ratio_series,
};
use log_analyzer::stats::LogData;
use log_analyzer::text::make_log_parsable;

const CODES: &str = "200,OK\n404,Not Found\n500,Internal Server Error\n";

fn codes() -> CodeTable {
    create_http_hashmap(CODES)
}

fn line(ip: &str, user: &str, time: &str, request: &str, status: &str, size: &str) -> String {
    format!(
        "{} - {} [{} +0000] \"{}\" {} {} \"-\" \"UA\"",
        ip, user, time, request, status, size
    )
}

fn data_with_errors(errors: &[usize]) -> Vec<LogData> {
    errors
        .iter()
        .map(|&e| LogData {
            time: 0,
            time_unit: 1,
            users: 1,
            sessions: 1,
            total_bytes: 0,
            byte_scale: 0,
            log_count: e.max(1),
            errors: e,
            gap_sum: 0,
            error_gap_sum: 0,
        })
        .collect()
}

#[test]
fn minimal_parse() {
    let text = "1.2.3.4 - - [10/Oct/2023:13:55:36 +0000] \"GET / HTTP/1.1\" 200 1532 \"-\" \"UA\"";
    let logs = parse_log(text, &codes());
    assert_eq!(logs.len(), 1);
    let l = &logs[0];
    assert_eq!(l.get_parsed_date(), vec![2023, 10, 10, 13, 55, 36]);
    assert_eq!(l.size, 1532);
    assert!((l.size as f64 / 1000.0 - 1.532).abs() < 1e-12);
    assert_eq!(l.ip, "1.2.3.4");
    assert_eq!(l.request, "\"GET%/%HTTP/1.1\"");
    assert_eq!(l.status_code, (200, "OK".to_string()));
    assert_eq!(l.epoch, 1696946136);
}

#[test]
fn deduplication_ignores_request() {
    let a = line("1.2.3.4", "-", "10/Oct/2023:13:55:36", "GET / HTTP/1.1", "200", "10");
    let b = line("1.2.3.4", "-", "10/Oct/2023:13:55:36", "POST /x HTTP/1.1", "200", "99");
    let logs = parse_log(&format!("{}\n{}\n", a, b), &codes());
    assert_eq!(logs.len(), 1);
    assert_eq!(logs[0].request, "\"GET%/%HTTP/1.1\"");
    assert_eq!(logs[0].size, 10);
}

#[test]
fn deduplication_keeps_distinct_identities_in_order() {
    let a = line("1.1.1.1", "-", "10/Oct/2023:13:55:36", "GET /", "200", "1");
    let b = line("2.2.2.2", "-", "10/Oct/2023:13:55:36", "GET /", "200", "2");
    let c = line("1.1.1.1", "-", "10/Oct/2023:13:55:36", "GET /", "404", "3");
    let d = line("2.2.2.2", "-", "10/Oct/2023:13:55:36", "GET /a", "200", "4");
    let logs = parse_log(&[a, b, c, d].join("\n"), &codes());
    let sizes: Vec<u128> = logs.iter().map(|l| l.size).collect();
    assert_eq!(sizes, vec![1, 2, 3]);
}

#[test]
fn dedup_twice_changes_nothing() {
    let a = line("1.1.1.1", "-", "10/Oct/2023:13:55:36", "GET /", "200", "1");
    let b = line("1.1.1.1", "-", "10/Oct/2023:13:55:36", "GET /b", "200", "2");
    let c = line("3.3.3.3", "-", "10/Oct/2023:13:55:37", "GET /", "500", "3");
    let logs = log_analyzer::log::parse_records(&[a, b, c].join("\n"), &codes());
    assert_eq!(logs.len(), 3);
    let once = dedup_logs(&logs);
    let twice = dedup_logs(&once);
    assert_eq!(once.len(), 2);
    let s1: Vec<String> = once.iter().map(|l| l.get_values_string()).collect();
    let s2: Vec<String> = twice.iter().map(|l| l.get_values_string()).collect();
    assert_eq!(s1, s2);
}

#[test]
fn bucket_granularity() {
    let a = line("1.1.1.1", "-", "01/Jan/2024:00:00:10", "GET /", "200", "1");
    let b = line("1.1.1.1", "-", "01/Jan/2024:00:00:50", "GET /", "200", "1");
    let logs = parse_log(&format!("{}\n{}", a, b), &codes());
    let by_min = group_logs_by(&logs, Granularity::Min);
    assert_eq!(by_min.len(), 1);
    assert_eq!(by_min[0].key, "2024|1|1|0|0");
    assert_eq!(by_min[0].members, vec![0, 1]);
    let by_sec = group_logs_by(&logs, Granularity::Sec);
    assert_eq!(by_sec.len(), 2);
    assert_eq!(by_sec[0].key, "2024|1|1|0|0|10");
    assert_eq!(by_sec[1].key, "2024|1|1|0|0|50");
}

#[test]
fn buckets_cover_every_record_once_in_first_seen_order() {
    let a = line("1.1.1.1", "-", "02/Jan/2024:10:00:00", "GET /", "200", "1");
    let b = line("1.1.1.1", "-", "01/Jan/2024:10:00:00", "GET /", "200", "1");
    let c = line("1.1.1.1", "-", "02/Jan/2024:11:00:00", "GET /", "200", "1");
    let logs = parse_log(&[a, b, c].join("\n"), &codes());
    let days = group_logs_by(&logs, Granularity::Day);
    assert_eq!(days.len(), 2);
    assert_eq!(days[0].key, "2024|1|2");
    assert_eq!(days[0].members, vec![0, 2]);
    assert_eq!(days[1].members, vec![1]);
    let mut all: Vec<usize> = days.iter().flat_map(|b| b.members.clone()).collect();
    all.sort();
    assert_eq!(all, vec![0, 1, 2]);
}

#[test]
fn sessions_split_on_long_gap() {
    // one address; gaps of 0, 3600 and 10800 seconds between its records
    let lines = [
        line("9.9.9.9", "a", "01/Jan/2024:00:00:00", "GET /", "200", "1"),
        line("9.9.9.9", "b", "01/Jan/2024:00:00:00", "GET /", "200", "1"),
        line("9.9.9.9", "c", "01/Jan/2024:01:00:00", "GET /", "200", "1"),
        line("9.9.9.9", "d", "01/Jan/2024:04:00:00", "GET /", "200", "1"),
    ];
    let logs = parse_log(&lines.join("\n"), &codes());
    assert_eq!(logs.len(), 4);
    let total = LogAnalyzer { logs }.get_total_data(Granularity::Hour).unwrap();
    assert_eq!(total.users, 1);
    assert_eq!(total.sessions, 2);
    assert_eq!(total.gap_sum, 14400);
    assert_eq!(total.time, 14400);
}

#[test]
fn sessions_equal_users_without_long_gaps() {
    let lines = [
        line("1.1.1.1", "-", "01/Jan/2024:00:00:00", "GET /", "200", "1"),
        line("2.2.2.2", "-", "01/Jan/2024:00:30:00", "GET /", "200", "1"),
        line("1.1.1.1", "-", "01/Jan/2024:02:00:00", "GET /", "200", "1"),
    ];
    let logs = parse_log(&lines.join("\n"), &codes());
    let total = LogAnalyzer { logs }.get_total_data(Granularity::Hour).unwrap();
    assert_eq!(total.users, 2);
    assert_eq!(total.sessions, 2);
}

#[test]
fn scwind_rate_statistic() {
    let data = data_with_errors(&[1, 2, 3, 4, 5]);
    assert_eq!(total_errors(&data), 15);
    assert_eq!(weighted_errors(&data), Some(55));
    assert_eq!(
        rate_statistic(ModelType::Scwind, &data),
        Some(Fraction { num: 55, den: 15 })
    );
    assert_eq!(
        rate_statistic(ModelType::Go, &data),
        Some(Fraction { num: 15, den: 1 })
    );
    assert_eq!(fit_plan(data.len(), 15), FitPlan::Solve);
}

#[test]
fn fit_plan_edges() {
    assert_eq!(fit_plan(5, 0), FitPlan::Skip);
    assert_eq!(fit_plan(1, 3), FitPlan::Flat);
    assert_eq!(fit_plan(0, 0), FitPlan::Skip);
}

#[test]
fn weighted_errors_of_large_counts() {
    let mut data = data_with_errors(&[usize::MAX; 3]);
    assert_eq!(weighted_errors(&data), Some(6 * (usize::MAX as u128)));
    data.truncate(0);
    assert_eq!(weighted_errors(&data), Some(0));
}

#[test]
fn cumulative_time_offsets() {
    // buckets at hours 0, 1 and 2 holding 2, 3 and 5 errors
    let mut lines = Vec::new();
    for (hour, errors) in [(0, 2), (1, 3), (2, 5)] {
        for k in 0..errors {
            lines.push(line(
                &format!("10.0.0.{}", k),
                "-",
                &format!("01/Jan/2024:0{}:00:00", hour),
                "GET /",
                "500",
                "1",
            ));
        }
    }
    let logs = parse_log(&lines.join("\n"), &codes());
    assert_eq!(logs.len(), 10);
    let (data, total) = LogAnalyzer { logs }.get_data(Granularity::Hour).unwrap();
    let points: Vec<(Fraction, Fraction)> = data
        .iter()
        .map(|d| d.get_data_point(Metric::Time, Metric::Errors))
        .collect();
    let xs: Vec<f64> = points.iter().map(|p| p.0.num as f64 / p.0.den as f64).collect();
    let ys: Vec<u128> = points.iter().map(|p| p.1.num).collect();
    assert_eq!(xs, vec![0.0, 1.0, 2.0]);
    assert_eq!(ys, vec![2, 3, 5]);
    assert_eq!(total.errors, 10);
    assert_eq!(total.time, 7200);
    assert_eq!(total.time_unit, 3600);
}

#[test]
fn line_errors() {
    let t = codes();
    let short = "1.2.3.4 - - [10/Oct/2023:13:55:36 +0000] \"GET / HTTP/1.1\" 200";
    assert_eq!(parse_line(short, &t).err(), Some(LineError::FieldCount));
    let unknown = line("1.1.1.1", "-", "10/Oct/2023:13:55:36", "GET /", "299", "1");
    assert_eq!(parse_line(&unknown, &t).err(), Some(LineError::UnknownStatus));
    let bad_date = line("1.1.1.1", "-", "31/Feb/2023:13:55:36", "GET /", "200", "1");
    assert_eq!(parse_line(&bad_date, &t).err(), Some(LineError::BadTimestamp));
    let bad_month = line("1.1.1.1", "-", "10/Foo/2023:13:55:36", "GET /", "200", "1");
    assert_eq!(parse_line(&bad_month, &t).err(), Some(LineError::BadTimestamp));
    let bad_hour = line("1.1.1.1", "-", "10/Oct/2023:24:00:00", "GET /", "200", "1");
    assert_eq!(parse_line(&bad_hour, &t).err(), Some(LineError::BadTimestamp));
    let wide = create_http_hashmap("700,Odd\n");
    let odd = line("1.1.1.1", "-", "10/Oct/2023:13:55:36", "GET /", "700", "1");
    assert_eq!(parse_line(&odd, &wide).err(), Some(LineError::StatusOutOfRange));
}

#[test]
fn field_defaults() {
    let t = create_http_hashmap("200,OK\nabc,Odd\n");
    let dash = line("1.1.1.1", "-", "29/Feb/2024:23:59:59", "GET /", "200", "-");
    let l = parse_line(&dash, &t).unwrap();
    assert_eq!(l.size, 0);
    assert_eq!(l.get_parsed_date(), vec![2024, 2, 29, 23, 59, 59]);
    let odd = line("1.1.1.1", "-", "10/Oct/2023:13:55:36", "GET /", "abc", "12");
    let l = parse_line(&odd, &t).unwrap();
    assert_eq!(l.status_code, (404, "Odd".to_string()));
    assert_eq!(l.size, 12);
}

#[test]
fn epoch_of_known_dates() {
    let t = codes();
    let a = line("1.1.1.1", "-", "01/Jan/1970:00:00:00", "GET /", "200", "1");
    assert_eq!(parse_line(&a, &t).unwrap().epoch, 0);
    let b = line("1.1.1.1", "-", "01/Mar/2000:00:00:00", "GET /", "200", "1");
    assert_eq!(parse_line(&b, &t).unwrap().epoch, 951868800);
    let c = line("1.1.1.1", "-", "31/Dec/1969:23:59:59", "GET /", "200", "1");
    assert_eq!(parse_line(&c, &t).unwrap().epoch, -1);
}

#[test]
fn masking_keeps_regions_whole() {
    assert_eq!(make_log_parsable("a [b c] \"d e\" f"), "a [b%c] \"d%e\" f");
    assert_eq!(make_log_parsable("x\ty"), "x\ty");
    assert_eq!(make_log_parsable("[a\tb]"), "[a%b]");
    assert_eq!(make_log_parsable(""), "");
}

#[test]
fn code_table_reading() {
    let t = create_http_hashmap("200,OK\nbroken\n200,Fine,extra\r\n301,Moved");
    assert_eq!(t.lookup(&"200".to_string()), Some("Fine".to_string()));
    assert_eq!(t.lookup(&"301".to_string()), Some("Moved".to_string()));
    assert_eq!(t.lookup(&"broken".to_string()), None);
    assert_eq!(t.lookup(&"404".to_string()), None);
}

#[test]
fn lines_with_crlf_parse() {
    let a = line("1.1.1.1", "-", "10/Oct/2023:13:55:36", "GET /", "200", "1");
    let b = line("2.2.2.2", "-", "10/Oct/2023:13:55:36", "GET /", "200", "1");
    let logs = parse_log(&format!("{}\r\n\r\n{}\r\n", a, b), &codes());
    assert_eq!(logs.len(), 2);
    assert_eq!(logs[1].user_id, "-");
}

#[test]
fn names() {
    assert_eq!(Granularity::from_name("min"), Some(Granularity::Min));
    assert_eq!(Granularity::from_name("year"), Some(Granularity::Year));
    assert_eq!(Granularity::from_name("minute"), None);
    assert_eq!(Granularity::Month.seconds(), 2629800);
    assert_eq!(Granularity::Hour.prefix_len(), 4);
    assert_eq!(Metric::from_name("hits"), Metric::Hits);
    assert_eq!(Metric::from_name("avg_bytes"), Metric::AvgBytes);
    assert_eq!(Metric::from_name("whatever"), Metric::Errors);
}

#[test]
fn metric_values() {
    let lines = [
        line("1.1.1.1", "-", "01/Jan/2024:00:00:00", "GET /", "200", "1000"),
        line("1.1.1.1", "-", "01/Jan/2024:00:00:10", "GET /", "500", "2000"),
        line("2.2.2.2", "-", "01/Jan/2024:00:00:40", "GET /", "404", "3000"),
    ];
    let logs = parse_log(&lines.join("\n"), &codes());
    let d = LogAnalyzer { logs }.get_total_data(Granularity::Min).unwrap();
    assert_eq!(d.get_data(Metric::Hits), Fraction { num: 3, den: 1 });
    assert_eq!(d.get_data(Metric::TotalBytes), Fraction { num: 6000, den: 1000 });
    assert_eq!(d.get_data(Metric::AvgBytes), Fraction { num: 6000, den: 3000 });
    assert_eq!(d.get_data(Metric::Errors), Fraction { num: 2, den: 1 });
    assert_eq!(d.get_data(Metric::Atbl), Fraction { num: 40, den: 3 });
    assert_eq!(d.get_data(Metric::Atbe), Fraction { num: 30, den: 2 });
    assert_eq!(d.get_data(Metric::Time), Fraction { num: 40, den: 60 });
    assert_eq!(d.get_data(Metric::Users), Fraction { num: 2, den: 1 });
    assert_eq!(d.get_data(Metric::Sessions), Fraction { num: 2, den: 1 });
}

#[test]
fn atbe_without_errors_is_zero() {
    let a = line("1.1.1.1", "-", "01/Jan/2024:00:00:00", "GET /", "200", "1");
    let logs = parse_log(&a, &codes());
    let d = LogAnalyzer { logs }.get_total_data(Granularity::Sec).unwrap();
    assert_eq!(d.get_data(Metric::Atbe), Fraction { num: 0, den: 1 });
    assert_eq!(d.get_data(Metric::Atbl), Fraction { num: 0, den: 1 });
}

#[test]
fn empty_corpus_has_no_statistics() {
    let analyzer = LogAnalyzer { logs: Vec::new() };
    assert!(analyzer.get_data(Granularity::Day).is_none());
    assert!(analyzer.get_total_data(Granularity::Day).is_none());
}

#[test]
fn coarser_buckets_dominate() {
    let lines = [
        line("1.1.1.1", "-", "01/Jan/2024:00:00:00", "GET /", "500", "10"),
        line("2.2.2.2", "-", "01/Jan/2024:01:00:00", "GET /", "200", "20"),
        line("3.3.3.3", "-", "01/Jan/2024:01:30:00", "GET /", "404", "30"),
    ];
    let logs = parse_log(&lines.join("\n"), &codes());
    let analyzer = LogAnalyzer { logs };
    let (hours, _) = analyzer.get_data(Granularity::Hour).unwrap();
    let (days, _) = analyzer.get_data(Granularity::Day).unwrap();
    assert_eq!(hours.len(), 2);
    assert_eq!(days.len(), 1);
    for h in &hours {
        assert!(h.log_count <= days[0].log_count);
        assert!(h.total_bytes <= days[0].total_bytes);
        assert!(h.errors <= days[0].errors);
        assert!(h.users <= days[0].users);
    }
    assert_eq!(days[0].errors, 2);
    assert_eq!(hours[1].time, 3600);
}

#[test]
fn identity_text_separates_fields() {
    let t = codes();
    let a = parse_line(&line("1.1.1.1", "ab", "10/Oct/2023:13:55:36", "GET /", "200", "1"), &t).unwrap();
    let b = parse_line(&line("1.1.1.1", "a", "10/Oct/2023:13:55:36", "GET /", "200", "1"), &t).unwrap();
    assert_ne!(a.get_values_string(), b.get_values_string());
    assert_eq!(
        a.get_values_string(),
        "7:1.1.1.128:[10/Oct/2023:13:55:36%+0000]1:-2:ab200"
    );
}

#[test]
fn groups_sorted_by_whole_units() {
    let mut data = data_with_errors(&[1, 2, 3, 4]);
    let times = [7300, 100, 3700, 3599];
    for (d, t) in data.iter_mut().zip(times) {
        d.time = t;
        d.time_unit = 3600;
    }
    sort_by_time(&mut data);
    let units: Vec<u64> = data.iter().map(|d| d.time / d.time_unit).collect();
    assert_eq!(units, vec![0, 0, 1, 2]);
    let errors: Vec<usize> = data.iter().map(|d| d.errors).collect();
    let mut sorted_errors = errors.clone();
    sorted_errors.sort();
    assert_eq!(sorted_errors, vec![1, 2, 3, 4]);
    assert_eq!(errors[2], 3);
    assert_eq!(errors[3], 1);
}

#[test]
fn buckets_out_of_order_get_sorted() {
    let lines = [
        line("1.1.1.1", "-", "01/Jan/2024:02:00:00", "GET /", "500", "1"),
        line("1.1.1.1", "-", "01/Jan/2024:00:00:00", "GET /", "500", "1"),
        line("1.1.1.1", "-", "01/Jan/2024:01:00:00", "GET /", "200", "1"),
    ];
    let logs = parse_log(&lines.join("\n"), &codes());
    let (mut data, _) = LogAnalyzer { logs }.get_data(Granularity::Hour).unwrap();
    let before: Vec<u64> = data.iter().map(|d| d.time).collect();
    assert_eq!(before, vec![7200, 0, 3600]);
    sort_by_time(&mut data);
    let after: Vec<u64> = data.iter().map(|d| d.time).collect();
    assert_eq!(after, vec![0, 3600, 7200]);
}

fn hourly(errors: &[usize]) -> Vec<LogData> {
    let mut data = data_with_errors(errors);
    for (i, d) in data.iter_mut().enumerate() {
        d.time = 3600 * i as u64;
        d.time_unit = 3600;
    }
    data
}

fn as_reals(points: &[(Fraction, Fraction)]) -> Vec<(f64, f64)> {
    points
        .iter()
        .map(|p| (p.0.num as f64 / p.0.den as f64, p.1.num as f64 / p.1.den as f64))
        .collect()
}

#[test]
fn cumulative_mode_with_time_axis() {
    let data = hourly(&[2, 3, 5]);
    let s = cumulative_series(&data, Metric::Time, Metric::Errors).unwrap();
    assert_eq!(as_reals(&s), vec![(0.0, 0.0), (1.0, 2.0), (2.0, 5.0)]);
}

#[test]
fn cumulative_mode_sums_both_axes() {
    let mut data = hourly(&[2, 3, 5]);
    data[0].users = 4;
    data[1].users = 1;
    data[2].users = 7;
    let s = cumulative_series(&data, Metric::Users, Metric::Errors).unwrap();
    assert_eq!(as_reals(&s), vec![(0.0, 0.0), (4.0, 2.0), (5.0, 5.0)]);
    let kb = cumulative_series(&data, Metric::Time, Metric::TotalBytes).unwrap();
    assert_eq!(kb[2].1, Fraction { num: 0, den: 1000 });
}

#[test]
fn cumulative_mode_reports_overflow() {
    let mut data = hourly(&[1, 1, 1]);
    for d in data.iter_mut() {
        d.total_bytes = u128::MAX;
    }
    assert!(cumulative_series(&data, Metric::Time, Metric::TotalBytes).is_none());
    assert!(cumulative_series(&data[..2].to_vec(), Metric::Time, Metric::TotalBytes).is_some());
}

#[test]
fn by_mode_series() {
    let mut data = hourly(&[2, 3, 5]);
    data[0].users = 9;
    data[1].users = 1;
    data[2].users = 4;
    let by_time = by_series(&data, Metric::Time, Metric::Errors);
    assert_eq!(as_reals(&by_time), vec![(0.0, 2.0), (1.0, 3.0), (2.0, 5.0)]);
    let by_users = by_series(&data, Metric::Users, Metric::Errors);
    assert_eq!(as_reals(&by_users), vec![(1.0, 3.0), (4.0, 5.0), (9.0, 2.0)]);
    data[0].log_count = 3;
    data[1].log_count = 2;
    data[2].log_count = 4;
    let by_mean = by_series(&data, Metric::Atbl, Metric::Errors);
    assert_eq!(by_mean.len(), 3);
}

#[test]
fn fractions_compare_exactly() {
    let a = Fraction { num: u128::MAX, den: u128::MAX - 1 };
    let b = Fraction { num: u128::MAX - 1, den: u128::MAX - 2 };
    assert!(fraction_le(a, b));
    assert!(!fraction_le(b, a));
    assert!(fraction_le(Fraction { num: 2, den: 4 }, Fraction { num: 1, den: 2 }));
}

#[test]
fn ratio_mode_series() {
    let mut data = hourly(&[2, 3, 0]);
    data[0].users = 4;
    data[1].users = 0;
    data[2].users = 5;
    let s = ratio_series(&data, Metric::Time, Metric::Users).unwrap();
    assert_eq!(s[0], (Fraction { num: 0, den: 3600 }, Fraction { num: 2, den: 4 }));
    assert_eq!(s[1].1, Fraction { num: 3, den: 0 });
    assert_eq!(s[2].1, Fraction { num: 0, den: 5 });
}

#[test]
fn cumulative_ratio_mode_series() {
    let mut data = hourly(&[2, 3, 5]);
    data[0].users = 1;
    data[1].users = 2;
    data[2].users = 5;
    let s = cumulative_ratio_series(&data, Metric::Users).unwrap();
    assert_eq!(as_reals(&s), vec![(0.0, 0.0), (1.0, 1.0), (2.0, 1.0)]);
}

#[test]
fn sizes_read_as_exact_reals() {
    let t = codes();
    let size = |field: &str| {
        let l = parse_line(&line("1.1.1.1", "-", "10/Oct/2023:13:55:36", "GET /", "200", field), &t)
            .unwrap();
        (l.size, l.size_scale)
    };
    assert_eq!(size("1532"), (1532, 0));
    assert_eq!(size("1532.5"), (15325, 1));
    assert_eq!(size("7."), (7, 0));
    assert_eq!(size(".5"), (5, 1));
    assert_eq!(size("+5"), (5, 0));
    assert_eq!(size("1e3"), (1000, 0));
    assert_eq!(size("2.5E-2"), (25, 3));
    assert_eq!(size("1.5e+1"), (15, 0));
    assert_eq!(size("-5"), (0, 0));
    assert_eq!(size("1.2.3"), (0, 0));
    assert_eq!(size("inf"), (0, 0));
    assert_eq!(size("1e"), (0, 0));
    assert_eq!(size("-"), (0, 0));
    assert_eq!(size("1e39"), (0, 0));
}

#[test]
fn fractional_sizes_sum_exactly() {
    let lines = [
        line("1.1.1.1", "-", "01/Jan/2024:00:00:00", "GET /", "200", "1.5"),
        line("2.2.2.2", "-", "01/Jan/2024:00:00:10", "GET /", "200", "2.25"),
        line("3.3.3.3", "-", "01/Jan/2024:00:00:20", "GET /", "200", "3"),
    ];
    let logs = parse_log(&lines.join("\n"), &codes());
    let d = LogAnalyzer { logs }.get_total_data(Granularity::Min).unwrap();
    assert_eq!(d.byte_scale, 2);
    assert_eq!(d.total_bytes, 675);
    assert_eq!(d.get_data(Metric::TotalBytes), Fraction { num: 675, den: 100_000 });
    assert_eq!(d.get_data(Metric::AvgBytes), Fraction { num: 675, den: 300_000 });
}

#[test]
fn sizes_too_precise_give_no_statistics() {
    let a = line("1.1.1.1", "-", "01/Jan/2024:00:00:00", "GET /", "200", "1.0000000000001");
    let logs = parse_log(&a, &codes());
    assert_eq!(logs[0].size_scale, 13);
    let analyzer = LogAnalyzer { logs };
    assert!(analyzer.get_data(Granularity::Day).is_none());
    assert!(analyzer.get_total_data(Granularity::Day).is_none());
}

#[test]
fn status_with_plus_sign() {
    let t = create_http_hashmap("+200,OK\n");
    let l = parse_line(&line("1.1.1.1", "-", "10/Oct/2023:13:55:36", "GET /", "+200", "1"), &t);
    assert_eq!(l.unwrap().status_code, (200, "OK".to_string()));
}

#[test]
fn parsed_records_are_well_formed() {
    let a = line("1.1.1.1", "-", "10/Oct/2023:00:00:10", "GET /", "200", "1");
    let mut l = parse_line(&a, &codes()).unwrap();
    assert!(l.is_well_formed());
    assert_eq!(l.time, "[10/Oct/2023:00:00:10%+0000]");
    assert_eq!(l.get_parsed_date(), vec![2023, 10, 10, 0, 0, 10]);
    l.epoch += 1;
    assert!(!l.is_well_formed());
}

#[test]
fn coarse_bucket_sums_its_fine_buckets() {
    let lines = [
        line("1.1.1.1", "-", "01/Jan/2024:00:00:00", "GET /", "500", "10"),
        line("2.2.2.2", "-", "01/Jan/2024:01:00:00", "GET /", "200", "20"),
        line("3.3.3.3", "-", "01/Jan/2024:01:30:00", "GET /", "404", "30"),
        line("4.4.4.4", "-", "02/Jan/2024:01:30:00", "GET /", "404", "40"),
    ];
    let logs = parse_log(&lines.join("\n"), &codes());
    let analyzer = LogAnalyzer { logs };
    let (hours, _) = analyzer.get_data(Granularity::Hour).unwrap();
    let (days, _) = analyzer.get_data(Granularity::Day).unwrap();
    assert_eq!(days.len(), 2);
    let first_day = &hours[..2];
    assert_eq!(days[0].log_count, first_day.iter().map(|h| h.log_count).sum::<usize>());
    assert_eq!(days[0].total_bytes, first_day.iter().map(|h| h.total_bytes).sum::<u128>());
    assert_eq!(days[0].errors, first_day.iter().map(|h| h.errors).sum::<usize>());
}

#[test]
fn malformed_lines_and_repeats_change_nothing() {
    let good = line("1.1.1.1", "-", "10/Oct/2023:13:55:36", "GET /", "200", "1");
    let other = line("2.2.2.2", "-", "10/Oct/2023:13:55:37", "GET /", "500", "2");
    let text = format!("{}\nnot a log line\n{}", good, other);
    let clean = format!("{}\n{}", good, other);
    let a = parse_log(&text, &codes());
    let b = parse_log(&clean, &codes());
    let twice = parse_log(&format!("{}\n{}", text, text), &codes());
    let keys = |v: &Vec<log_analyzer::log::Log>| -> Vec<String> {
        v.iter().map(|l| l.get_values_string()).collect()
    };
    assert_eq!(keys(&a), keys(&b));
    assert_eq!(keys(&a), keys(&twice));
    assert_eq!(a.len(), 2);
}
