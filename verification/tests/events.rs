use matiane_core::date::{Date, Timestamp};
use matiane_core::events::{Event, Focused, TimedEvent};

fn ts(year: u32, month: u32, day: u32, h: u32, m: u32, s: u32) -> Timestamp {
    Timestamp { date: Date { year, month, day }, secs: h * 3600 + m * 60 + s }
}

#[test]
fn encode_simple_record_exact() {
    let ev = TimedEvent { timestamp: ts(2026, 1, 1, 20, 0, 0), event: Event::Alive };
    let bytes = ev.encode();
    assert_eq!(
        bytes,
        b"{\"timestamp\":\"2026-01-01T20:00:00Z\",\"event\":{\"type\":\"alive\"}}".to_vec()
    );
}

#[test]
fn encode_focused_record_exact() {
    let ev = TimedEvent {
        timestamp: ts(2026, 1, 5, 0, 5, 0),
        event: Event::Focused(Focused {
            title: "a \"quoted\"\ttitle".to_string(),
            id: "term\\app".to_string(),
            pid: 4107,
        }),
    };
    let bytes = ev.encode();
    let expected = "{\"timestamp\":\"2026-01-05T00:05:00Z\",\"event\":{\"type\":\"focused\",\"title\":\"a \\\"quoted\\\"\\ttitle\",\"id\":\"term\\\\app\",\"pid\":4107}}";
    assert_eq!(bytes, expected.as_bytes().to_vec());
}

#[test]
fn decode_simple_records() {
    for (tag, event) in [
        ("alive", Event::Alive),
        ("sleep", Event::Sleep),
        ("awake", Event::Awake),
        ("idle", Event::Idle),
        ("active", Event::Active),
    ] {
        let line = format!(
            "{{\"timestamp\":\"2026-01-03T05:01:00Z\",\"event\":{{\"type\":\"{}\"}}}}",
            tag
        );
        let ev = TimedEvent::decode(line.as_bytes()).unwrap();
        assert_eq!(ev.timestamp, ts(2026, 1, 3, 5, 1, 0));
        assert_eq!(ev.event, event);
    }
}

#[test]
fn codec_round_trips() {
    let samples = vec![
        TimedEvent { timestamp: ts(1970, 1, 1, 0, 0, 0), event: Event::Alive },
        TimedEvent { timestamp: ts(9999, 12, 31, 23, 59, 59), event: Event::Sleep },
        TimedEvent {
            timestamp: ts(2026, 2, 28, 12, 30, 30),
            event: Event::Focused(Focused {
                title: "π — unicode title\nwith newline".to_string(),
                id: String::new(),
                pid: 0,
            }),
        },
        TimedEvent {
            timestamp: ts(2024, 2, 29, 6, 7, 8),
            event: Event::Focused(Focused {
                title: String::new(),
                id: "\"\\\t\r\n".to_string(),
                pid: u32::MAX,
            }),
        },
    ];
    for ev in samples {
        let bytes = ev.encode();
        let back = TimedEvent::decode(&bytes).unwrap();
        assert_eq!(back, ev);
    }
}

#[test]
fn decode_rejects_malformed() {
    // Truncated, wrong key, bad month, bad escape, trailing garbage,
    // leading-zero pid, out-of-range pid.
    let bad = [
        "".to_string(),
        "{\"timestamp\":\"2026-01-03T05:01:00Z\"".to_string(),
        "{\"time\":\"2026-01-03T05:01:00Z\",\"event\":{\"type\":\"alive\"}}".to_string(),
        "{\"timestamp\":\"2026-13-03T05:01:00Z\",\"event\":{\"type\":\"alive\"}}".to_string(),
        "{\"timestamp\":\"2026-01-03T25:01:00Z\",\"event\":{\"type\":\"alive\"}}".to_string(),
        "{\"timestamp\":\"2026-01-03T05:01:00Z\",\"event\":{\"type\":\"nap\"}}".to_string(),
        "{\"timestamp\":\"2026-01-03T05:01:00Z\",\"event\":{\"type\":\"focused\",\"title\":\"a\\qb\",\"id\":\"x\",\"pid\":1}}".to_string(),
        "{\"timestamp\":\"2026-01-03T05:01:00Z\",\"event\":{\"type\":\"focused\",\"title\":\"t\",\"id\":\"x\",\"pid\":007}}".to_string(),
        "{\"timestamp\":\"2026-01-03T05:01:00Z\",\"event\":{\"type\":\"focused\",\"title\":\"t\",\"id\":\"x\",\"pid\":4294967296}}".to_string(),
        "{\"timestamp\":\"2026-01-03T05:01:00Z\",\"event\":{\"type\":\"alive\"}}x".to_string(),
    ];
    for line in bad {
        assert_eq!(TimedEvent::decode(line.as_bytes()), None, "{line}");
    }
}
