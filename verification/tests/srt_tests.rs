use srt_align::srt::{build_srt, build_untimed_srt, format_srt_time};
use srt_align::timeline::long_pauses;

fn seg(t0: i64, t1: i64) -> (i64, i64, String) {
    (t0, t1, String::from("x"))
}

#[test]
fn time_code_zero() {
    assert_eq!(format_srt_time(0), "00:00:00,000");
}

#[test]
fn time_code_fields() {
    assert_eq!(format_srt_time(3_723_004), "01:02:03,004");
    assert_eq!(format_srt_time(59_999), "00:00:59,999");
    assert_eq!(format_srt_time(60_000), "00:01:00,000");
}

#[test]
fn time_code_many_hours() {
    assert_eq!(format_srt_time(360_000_000), "100:00:00,000");
}

#[test]
fn time_code_negative() {
    assert_eq!(format_srt_time(-1500), "00:00:-1,-500");
    assert_eq!(format_srt_time(-5), "00:00:00,-05");
}

#[test]
fn time_code_extremes() {
    assert_eq!(format_srt_time(i64::MAX), format!("{:02}:{:02}:{:02},{:03}",
        i64::MAX / 1000 / 60 / 60, (i64::MAX / 1000 / 60) % 60, (i64::MAX / 1000) % 60, i64::MAX % 1000));
    assert_eq!(format_srt_time(i64::MIN), format!("{:02}:{:02}:{:02},{:03}",
        i64::MIN / 1000 / 60 / 60, (i64::MIN / 1000 / 60) % 60, (i64::MIN / 1000) % 60, i64::MIN % 1000));
}

#[test]
fn srt_gap_between_known_lines_is_divided() {
    let lines = ["a", "b", "c"];
    let segs = vec![seg(1000, 2000), seg(2500, 3000)];
    let out = build_srt(&lines, &segs, &[0, 2]);
    assert_eq!(
        out,
        "1\n00:00:01,000 --> 00:00:02,000\na\n\n\
         2\n00:00:02,250 --> 00:00:02,500\nb\n\n\
         3\n00:00:02,500 --> 00:00:03,000\nc\n\n"
    );
}

#[test]
fn srt_tail_continues_from_last_line() {
    let lines = ["a", "b", "c"];
    let segs = vec![seg(0, 1000)];
    let out = build_srt(&lines, &segs, &[0]);
    assert_eq!(
        out,
        "1\n00:00:00,000 --> 00:00:01,000\na\n\n\
         2\n00:00:01,000 --> 00:00:03,500\nb\n\n\
         3\n00:00:03,500 --> 00:00:06,000\nc\n\n"
    );
}

#[test]
fn srt_head_counts_back_from_first_line() {
    let lines = ["a", "b", "c"];
    let segs = vec![seg(6000, 7000)];
    let out = build_srt(&lines, &segs, &[2]);
    assert_eq!(
        out,
        "1\n00:00:01,000 --> 00:00:03,500\na\n\n\
         2\n00:00:03,500 --> 00:00:06,000\nb\n\n\
         3\n00:00:06,000 --> 00:00:07,000\nc\n\n"
    );
}

#[test]
fn srt_head_stops_at_zero() {
    let lines = ["a", "b", "c"];
    let segs = vec![seg(3000, 4000)];
    let out = build_srt(&lines, &segs, &[2]);
    assert_eq!(
        out,
        "1\n00:00:00,000 --> 00:00:00,500\na\n\n\
         2\n00:00:00,500 --> 00:00:03,000\nb\n\n\
         3\n00:00:03,000 --> 00:00:04,000\nc\n\n"
    );
}

#[test]
fn srt_without_segments_counts_from_zero() {
    let lines = ["a", "b"];
    let segs: Vec<(i64, i64, String)> = Vec::new();
    let out = build_srt(&lines, &segs, &[]);
    assert_eq!(
        out,
        "1\n00:00:00,000 --> 00:00:02,500\na\n\n\
         2\n00:00:02,500 --> 00:00:05,000\nb\n\n"
    );
}

#[test]
fn srt_line_spans_all_its_segments() {
    let lines = ["a"];
    let segs = vec![seg(1000, 2000), seg(1500, 3000), seg(500, 900)];
    let out = build_srt(&lines, &segs, &[0, 0, 0]);
    assert_eq!(out, "1\n00:00:00,500 --> 00:00:03,000\na\n\n");
}

#[test]
fn srt_backwards_neighbours_continue_from_previous() {
    let lines = ["a", "b", "c"];
    let segs = vec![seg(5000, 6000), seg(4000, 4500)];
    let out = build_srt(&lines, &segs, &[0, 2]);
    assert_eq!(
        out,
        "1\n00:00:05,000 --> 00:00:06,000\na\n\n\
         2\n00:00:06,000 --> 00:00:08,500\nb\n\n\
         3\n00:00:04,000 --> 00:00:04,500\nc\n\n"
    );
}

#[test]
fn srt_narrow_gap_uses_one_millisecond_steps() {
    let lines = ["a", "b", "c", "d"];
    let segs = vec![seg(0, 1000), seg(1002, 2000)];
    let out = build_srt(&lines, &segs, &[0, 3]);
    assert_eq!(
        out,
        "1\n00:00:00,000 --> 00:00:01,000\na\n\n\
         2\n00:00:01,001 --> 00:00:01,002\nb\n\n\
         3\n00:00:01,002 --> 00:00:01,002\nc\n\n\
         4\n00:00:01,002 --> 00:00:02,000\nd\n\n"
    );
}

#[test]
fn srt_very_narrow_gap_stays_inside() {
    let lines = ["a", "b", "c", "d"];
    let segs = vec![seg(0, 1000), seg(1001, 2000)];
    let out = build_srt(&lines, &segs, &[0, 3]);
    assert_eq!(
        out,
        "1\n00:00:00,000 --> 00:00:01,000\na\n\n\
         2\n00:00:01,001 --> 00:00:01,001\nb\n\n\
         3\n00:00:01,001 --> 00:00:01,001\nc\n\n\
         4\n00:00:01,001 --> 00:00:02,000\nd\n\n"
    );
}

#[test]
fn srt_empty_text() {
    let lines: [&str; 0] = [];
    let segs = vec![seg(0, 1000)];
    assert_eq!(build_srt(&lines, &segs, &[]), "");
}

#[test]
fn srt_every_line_once() {
    let lines = ["один", "два", "три", "чотири"];
    let segs = vec![seg(0, 100), seg(100, 200), seg(200, 300)];
    let out = build_srt(&lines, &segs, &[0, 0, 3]);
    for l in lines.iter() {
        assert_eq!(out.matches(&format!("\n{}\n\n", l)).count(), 1);
    }
    assert_eq!(out.matches(" --> ").count(), 4);
}

#[test]
fn untimed_srt() {
    let lines = ["x", "y"];
    assert_eq!(
        build_untimed_srt(&lines),
        "1\n00:00:00,000 --> 00:00:00,000\nx\n\n2\n00:00:00,000 --> 00:00:00,000\ny\n\n"
    );
}

#[test]
fn pauses_longer_than_half_a_second() {
    let segs = vec![seg(0, 1000), seg(1600, 2000), seg(2400, 3000), seg(3501, 4000), seg(4500, 5000)];
    assert_eq!(long_pauses(&segs), vec![1, 3]);
    assert_eq!(long_pauses(&[]), Vec::<usize>::new());
}

fn read_back(code: &str) -> i64 {
    let (hms, millis) = code.split_once(',').unwrap();
    let parts: Vec<&str> = hms.split(':').collect();
    assert_eq!(parts.len(), 3);
    assert!(parts[0].len() >= 2 && parts[1].len() == 2 && parts[2].len() == 2 && millis.len() == 3);
    let h: i64 = parts[0].parse().unwrap();
    let m: i64 = parts[1].parse().unwrap();
    let s: i64 = parts[2].parse().unwrap();
    let f: i64 = millis.parse().unwrap();
    assert!(m < 60 && s < 60);
    h * 3_600_000 + m * 60_000 + s * 1000 + f
}

#[test]
fn time_codes_read_back() {
    for ms in [0i64, 1, 999, 1000, 61_001, 3_599_999, 3_600_000, 123_456_789, 400_000_000_000] {
        assert_eq!(read_back(&format_srt_time(ms)), ms);
    }
}

#[test]
fn time_codes_order_as_times() {
    let times = [0i64, 1, 9, 10, 999, 1000, 59_999, 60_000, 599_999, 3_599_999, 3_600_000, 359_999_999];
    for &a in times.iter() {
        for &b in times.iter() {
            assert_eq!(a < b, format_srt_time(a) < format_srt_time(b));
            assert_eq!(a == b, format_srt_time(a) == format_srt_time(b));
        }
    }
}
