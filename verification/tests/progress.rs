use backchannel::binary64::Binary64;
use backchannel::progress::{
    render, write_frame_with_progress, Progress, TransferStats, CHUNK, SHOW_AFTER_NS,
};
use backchannel::proto::write_frame;

const SECOND: u64 = 1_000_000_000;
const MS: u64 = 1_000_000;

#[test]
fn renders_partial_and_complete() {
    let line = render("a.tif", 5 * 1024 * 1024, 10 * 1024 * 1024, SECOND);
    assert!(line.contains("a.tif:"), "{line}");
    assert!(line.contains(" 50% 5.0/10.0 MiB"), "{line}");
    assert!(line.contains("(5.0 MiB/s)"), "{line}");
    assert!(line.contains("############------------"), "{line}");

    let done = render("a.tif", 10, 10, SECOND);
    assert!(done.contains("100%"), "{done}");
    assert!(done.contains("########################"), "{done}");
}

#[test]
fn zero_total_does_not_divide_by_zero() {
    let line = render("x", 0, 0, MS);
    assert!(line.contains("100%"), "{line}");
}

#[test]
fn stats_summary_thresholds() {
    let fast = TransferStats {
        bytes: 4096,
        elapsed_ns: 30 * MS,
    };
    assert!(fast.summary().is_none());

    let slow = TransferStats {
        bytes: 15 * 1024 * 1024,
        elapsed_ns: 3 * SECOND,
    };
    assert_eq!(slow.summary().unwrap(), "15.0 MiB in 3.0s, 5.0 MiB/s");
}

/// The same line, in the machine's own doubles.
fn float_line(label: &str, sent: u64, total: u64, ns: u64) -> String {
    let elapsed = std::time::Duration::from_nanos(ns);
    let frac = if total == 0 {
        1.0
    } else {
        (sent as f64 / total as f64).clamp(0.0, 1.0)
    };
    let filled = ((frac * 24_f64).round() as usize).min(24);
    let mib = |b: u64| b as f64 / (1024.0 * 1024.0);
    let rate = mib(sent) / elapsed.as_secs_f64().max(0.001);
    format!(
        "{label}: [{}{}] {:3.0}% {:.1}/{:.1} MiB ({rate:.1} MiB/s)",
        "#".repeat(filled),
        "-".repeat(24 - filled),
        frac * 100.0,
        mib(sent),
        mib(total),
    )
}

fn float_summary(bytes: u64, ns: u64) -> String {
    let mib = bytes as f64 / (1024.0 * 1024.0);
    let secs = std::time::Duration::from_nanos(ns).as_secs_f64();
    format!(
        "{mib:.1} MiB in {secs:.1}s, {:.1} MiB/s",
        mib / secs.max(0.001)
    )
}

fn numbers() -> Vec<u64> {
    let mut out = vec![
        0,
        1,
        2,
        3,
        9,
        10,
        52_428,
        52_429,
        104_857,
        104_858,
        262_144,
        524_288,
        786_432,
        1_048_576,
        1_572_864,
        (1 << 53) - 1,
        1 << 53,
        (1 << 53) + 1,
        (1 << 53) + 3,
        u64::MAX - 1024,
        u64::MAX - 1,
        u64::MAX,
    ];
    let mut x: u64 = 0x9E37_79B9_7F4A_7C15;
    for i in 0..60u32 {
        x ^= x << 13;
        x ^= x >> 7;
        x ^= x << 17;
        out.push(x >> i);
    }
    out
}

#[test]
fn lines_agree_with_doubles() {
    let times = [
        0,
        1,
        999_999,
        MS,
        MS + 1,
        50 * MS,
        250 * MS,
        350 * MS,
        450 * MS,
        SECOND,
        3 * SECOND + 7,
        86_399_123_456_789,
        u64::MAX,
    ];
    let numbers = numbers();
    for (i, sent) in numbers.iter().enumerate() {
        for total in &numbers {
            let ns = times[(i + *total as usize % 97) % times.len()];
            assert_eq!(
                render("l", *sent, *total, ns),
                float_line("l", *sent, *total, ns),
                "{sent}/{total} {ns}"
            );
        }
    }
}

#[test]
fn summaries_agree_with_doubles() {
    for bytes in numbers() {
        for ns in numbers() {
            let summary = TransferStats {
                bytes,
                elapsed_ns: ns,
            }
            .summary();
            if ns < SHOW_AFTER_NS {
                assert_eq!(summary, None);
            } else {
                assert_eq!(summary, Some(float_summary(bytes, ns)), "{bytes} {ns}");
            }
        }
    }
    for ms in 250..2000u64 {
        let stats = TransferStats {
            bytes: ms * 104_857,
            elapsed_ns: ms * MS,
        };
        assert_eq!(
            stats.summary(),
            Some(float_summary(stats.bytes, stats.elapsed_ns))
        );
    }
}

fn double(x: Binary64) -> f64 {
    x.mant as f64 * 2f64.powi(x.exp)
}

#[test]
fn arithmetic_agrees_with_doubles() {
    let numbers = numbers();
    for a in &numbers {
        let x = Binary64::of_u64(*a);
        assert_eq!(double(x), *a as f64);
        assert_eq!(double(x.times(100)), *a as f64 * 100.0);
        for c in &numbers {
            let y = Binary64::of_u64(*c);
            assert_eq!(x.is_less(y), (*a as f64) < (*c as f64));
            if *c > 0 {
                assert_eq!(double(x.divided_by(y)), *a as f64 / *c as f64);
            }
        }
    }
    for nanos in [0u64, 1, 3, 999_999_999, 123_456_789] {
        for secs in [0u64, 1, 7, 1 << 20, (1 << 35) - 1] {
            let sum = Binary64::ratio(nanos, 1_000_000_000).plus(secs);
            assert_eq!(double(sum), secs as f64 + nanos as f64 / 1e9);
        }
    }
}

#[test]
fn whole_numbers_agree_with_doubles() {
    for n in 0..4000u64 {
        let x = Binary64::ratio(n, 160);
        let d = n as f64 / 160.0;
        assert_eq!(x.rounded(), d.round() as u64, "{d}");
        assert_eq!(format!("{}", x.scaled(1)), format!("{d:.0}"));
        let tenths = x.scaled(10);
        assert_eq!(format!("{}.{}", tenths / 10, tenths % 10), format!("{d:.1}"));
    }
}

#[test]
fn bars_never_shrink() {
    for total in [1u64, 3, 7, 100, 1000, u64::MAX] {
        let mut last = 0;
        for step in 0..=100u64 {
            let sent = (total as u128 * step as u128 / 80) as u64;
            let sent = if step > 80 { total.max(sent) } else { sent };
            let line = render("l", sent, total, 0);
            let filled = line.matches('#').count();
            assert_eq!(filled + line.matches('-').count(), 24);
            assert!(filled >= last, "{sent}/{total}");
            last = filled;
        }
        assert_eq!(last, 24);
    }
    let over = render("l", 30, 10, 0);
    assert!(over.starts_with("l: [########################] 100% "), "{over}");
}

// ---- drawing ----

fn always() -> Option<String> {
    Some("always".into())
}

#[test]
fn progress_waits_before_it_shows() {
    let mut p = Progress::new("f", 100, &always(), false);
    assert_eq!(p.update(50, 249 * MS), None);
    assert_eq!(p.finish(249 * MS), None);
    assert_eq!(
        p.update(50, 250 * MS),
        Some(format!("\r{}", render("f", 50, 100, 250 * MS)))
    );
    assert_eq!(p.update(60, 299 * MS), None);
    assert!(p.update(70, 300 * MS).is_some());
    // The end is always drawn.
    assert!(p.update(100, 301 * MS).is_some());
    let width = render("f", 100, 100, SECOND).chars().count();
    assert_eq!(
        p.finish(SECOND),
        Some(format!("\r{}\r", " ".repeat(width)))
    );
}

#[test]
fn progress_settings() {
    let draws = |setting: Option<&str>, terminal: bool| {
        Progress::new("f", 1, &setting.map(|s| s.to_string()), terminal)
            .update(0, SECOND)
            .is_some()
    };
    assert!(draws(Some("always"), false));
    assert!(!draws(Some("never"), true));
    assert!(draws(None, true));
    assert!(!draws(None, false));
    assert!(draws(Some("auto"), true));
    assert!(!draws(Some(""), false));
}

// ---- chunks ----

#[test]
fn chunks_make_up_the_frame() {
    for len in [0, 1, CHUNK - 1, CHUNK, CHUNK + 1, 3 * CHUNK, 3 * CHUNK + 5] {
        let payload: Vec<u8> = (0..len).map(|i| i as u8).collect();
        let plan = write_frame_with_progress(len);
        let mut written = plan.header.clone();
        for (from, to) in &plan.chunks {
            assert!(to - from <= CHUNK && from < to);
            written.extend_from_slice(&payload[*from..*to]);
        }
        let mut whole = Vec::new();
        write_frame(&mut whole, &payload);
        assert_eq!(written, whole);
        assert_eq!(plan.chunks.len(), payload.chunks(CHUNK).count());
    }
}
