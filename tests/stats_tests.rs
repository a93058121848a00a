use uptime_monitor::stats::{
    bucket_logs, fill_data_gaps, get_daily_stats, get_daily_stats_now, incidents, recent_stats,
    truncate_to_bucket, Incident, LogRecord, WebsiteStats,
};

// 2024-05-01T10:00:00Z
const TEN_O_CLOCK: i64 = 1_714_557_600;

fn log(created_at: i64, status: i16) -> LogRecord {
    LogRecord { created_at, status }
}

#[test]
fn truncation_zeroes_minutes_and_seconds() {
    assert_eq!(truncate_to_bucket(TEN_O_CLOCK + 59 * 60 + 59, 3600), TEN_O_CLOCK);
    assert_eq!(truncate_to_bucket(TEN_O_CLOCK, 3600), TEN_O_CLOCK);
    assert_eq!(truncate_to_bucket(TEN_O_CLOCK + 5 * 3600 + 7, 86400), TEN_O_CLOCK - 10 * 3600);
    assert_eq!(truncate_to_bucket(-1, 3600), -3600);
}

#[test]
fn no_logs_gives_full_empty_series() {
    let now = TEN_O_CLOCK + 17 * 60 + 3;
    let r = get_daily_stats(&vec![], now);
    assert_eq!(r.len(), 24);
    for (k, p) in r.iter().enumerate() {
        assert_eq!(p.uptime_pct, None);
        assert_eq!(p.time % 3600, 0);
        assert_eq!(p.time, TEN_O_CLOCK - 3600 * k as i64);
    }
    for w in r.windows(2) {
        assert!(w[0].time > w[1].time);
    }
}

#[test]
fn bucket_percentage_is_truncated() {
    let logs = vec![
        log(TEN_O_CLOCK + 60, 200),
        log(TEN_O_CLOCK + 120, 500),
        log(TEN_O_CLOCK + 180, 200),
    ];
    let r = bucket_logs(&logs, 3600, 24);
    assert_eq!(r, vec![WebsiteStats { time: TEN_O_CLOCK, uptime_pct: Some(66) }]);

    let series = get_daily_stats(&logs, TEN_O_CLOCK + 1800);
    assert_eq!(series.len(), 24);
    assert_eq!(series[0], WebsiteStats { time: TEN_O_CLOCK, uptime_pct: Some(66) });
    assert!(series[1..].iter().all(|p| p.uptime_pct.is_none()));
}

#[test]
fn buckets_come_oldest_first_and_limited() {
    let logs = vec![
        log(TEN_O_CLOCK + 2 * 3600, 500),
        log(TEN_O_CLOCK, 200),
        log(TEN_O_CLOCK + 3600 + 10, 200),
        log(TEN_O_CLOCK + 3600 + 20, 404),
    ];
    let r = bucket_logs(&logs, 3600, 2);
    assert_eq!(
        r,
        vec![
            WebsiteStats { time: TEN_O_CLOCK, uptime_pct: Some(100) },
            WebsiteStats { time: TEN_O_CLOCK + 3600, uptime_pct: Some(50) },
        ]
    );
    assert_eq!(bucket_logs(&logs, 3600, 0), vec![]);
    assert_eq!(bucket_logs(&logs, 3600, 10).len(), 3);
    assert_eq!(bucket_logs(&logs, 3600, 10)[2], WebsiteStats { time: TEN_O_CLOCK + 7200, uptime_pct: Some(0) });
}

#[test]
fn dense_series_keeps_the_earliest_buckets_ascending() {
    let logs: Vec<LogRecord> = (0..30).map(|h| log(TEN_O_CLOCK + h * 3600, 200)).collect();
    let r = get_daily_stats(&logs, TEN_O_CLOCK + 40 * 3600);
    assert_eq!(r.len(), 24);
    for (k, p) in r.iter().enumerate() {
        assert_eq!(*p, WebsiteStats { time: TEN_O_CLOCK + 3600 * k as i64, uptime_pct: Some(100) });
    }
}

#[test]
fn sparse_series_is_gap_filled_newest_first() {
    let now = TEN_O_CLOCK + 300;
    let logs = vec![log(TEN_O_CLOCK - 3 * 3600 + 5, 200), log(TEN_O_CLOCK - 3 * 3600 + 6, 503)];
    let r = recent_stats(&logs, 3600, 5, now);
    assert_eq!(
        r,
        vec![
            WebsiteStats { time: TEN_O_CLOCK, uptime_pct: None },
            WebsiteStats { time: TEN_O_CLOCK - 3600, uptime_pct: None },
            WebsiteStats { time: TEN_O_CLOCK - 7200, uptime_pct: None },
            WebsiteStats { time: TEN_O_CLOCK - 10800, uptime_pct: Some(50) },
            WebsiteStats { time: TEN_O_CLOCK - 14400, uptime_pct: None },
        ]
    );
}

#[test]
fn old_buckets_outside_the_window_are_kept() {
    let data = vec![WebsiteStats { time: TEN_O_CLOCK - 100 * 3600, uptime_pct: Some(75) }];
    let r = fill_data_gaps(data, 3, 3600, TEN_O_CLOCK + 1);
    assert_eq!(
        r,
        vec![
            WebsiteStats { time: TEN_O_CLOCK, uptime_pct: None },
            WebsiteStats { time: TEN_O_CLOCK - 3600, uptime_pct: None },
            WebsiteStats { time: TEN_O_CLOCK - 7200, uptime_pct: None },
            WebsiteStats { time: TEN_O_CLOCK - 100 * 3600, uptime_pct: Some(75) },
        ]
    );
}

#[test]
fn full_data_is_returned_unchanged() {
    let data = vec![
        WebsiteStats { time: 0, uptime_pct: Some(1) },
        WebsiteStats { time: 3600, uptime_pct: Some(2) },
    ];
    assert_eq!(fill_data_gaps(data.clone(), 2, 3600, TEN_O_CLOCK), data);
}

#[test]
fn daily_granularity_zeroes_the_hour() {
    let r = recent_stats(&vec![], 86400, 3, TEN_O_CLOCK + 1234);
    let midnight = TEN_O_CLOCK - 10 * 3600;
    assert_eq!(r.iter().map(|p| p.time).collect::<Vec<_>>(), vec![midnight, midnight - 86400, midnight - 2 * 86400]);
}

#[test]
fn logged_points_do_not_depend_on_now() {
    let logs = vec![log(TEN_O_CLOCK + 10, 200), log(TEN_O_CLOCK + 20, 500), log(TEN_O_CLOCK + 7200, 200)];
    let a = get_daily_stats(&logs, TEN_O_CLOCK + 3 * 3600);
    let b = get_daily_stats(&logs, TEN_O_CLOCK + 5 * 3600 + 9);
    let logged = |s: &Vec<WebsiteStats>| {
        let mut v: Vec<WebsiteStats> = s.iter().filter(|p| p.uptime_pct.is_some()).cloned().collect();
        v.sort_by_key(|p| p.time);
        v
    };
    assert_eq!(logged(&a), logged(&b));
    assert_eq!(logged(&a).len(), 2);
    assert_eq!(get_daily_stats(&logs, TEN_O_CLOCK + 3 * 3600), a);
}

#[test]
fn series_up_to_the_clock_has_a_day_of_points() {
    let r = get_daily_stats_now(&vec![]);
    assert_eq!(r.len(), 24);
    assert!(r.iter().all(|p| p.uptime_pct.is_none() && p.time % 3600 == 0));
}

#[test]
fn incidents_are_the_non_200_results() {
    let logs = vec![log(1, 200), log(2, 500), log(3, 200), log(4, 404)];
    assert_eq!(
        incidents(&logs),
        vec![Incident { time: 2, status: 500 }, Incident { time: 4, status: 404 }]
    );
    assert_eq!(incidents(&vec![]), vec![]);
}

#[test]
fn logs_inside_the_day_give_exactly_one_point_per_hour() {
    let now = TEN_O_CLOCK + 42;
    let logs = vec![log(TEN_O_CLOCK - 23 * 3600 + 1, 200), log(TEN_O_CLOCK + 2, 500), log(TEN_O_CLOCK - 5 * 3600, 200)];
    let r = get_daily_stats(&logs, now);
    assert_eq!(r.len(), 24);
    assert_eq!(r[0], WebsiteStats { time: TEN_O_CLOCK, uptime_pct: Some(0) });
    assert_eq!(r[5], WebsiteStats { time: TEN_O_CLOCK - 5 * 3600, uptime_pct: Some(100) });
    assert_eq!(r[23], WebsiteStats { time: TEN_O_CLOCK - 23 * 3600, uptime_pct: Some(100) });
    assert_eq!(r.iter().filter(|p| p.uptime_pct.is_none()).count(), 21);
}
