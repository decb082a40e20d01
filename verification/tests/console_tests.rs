use nova_agent::console::{ConsoleBus, ConsoleLine, ConsoleStream, BACKLOG_CAPACITY};

fn line(n: u64) -> ConsoleLine {
    ConsoleLine { timestamp: n, stream: ConsoleStream::Stdout, line: format!("line {n}") }
}

#[test]
fn backlog_starts_empty() {
    let bus = ConsoleBus::new();
    assert!(bus.backlog().is_empty());
}

#[test]
fn backlog_keeps_order() {
    let mut bus = ConsoleBus::new();
    bus.push(line(1));
    bus.push(line(2));
    let b = bus.backlog();
    assert_eq!(b.len(), 2);
    assert_eq!(b[0].line, "line 1");
    assert_eq!(b[1].line, "line 2");
    assert_eq!(b[1].timestamp, 2);
}

#[test]
fn backlog_keeps_the_most_recent_5000_lines() {
    let mut bus = ConsoleBus::new();
    for n in 0..(BACKLOG_CAPACITY as u64 + 3) {
        bus.push(line(n));
    }
    let b = bus.backlog();
    assert_eq!(b.len(), 5000);
    assert_eq!(b[0].line, "line 3");
    assert_eq!(b[4999].line, "line 5002");
}

#[test]
fn subscriber_receives_pushed_lines() {
    let mut bus = ConsoleBus::new();
    bus.push(line(1));
    let mut sub = bus.subscribe();
    assert_eq!(sub.owner, 0);
    bus.push(line(2));
    let got = sub.rx.try_recv().expect("a line");
    assert_eq!(got.line, "line 2");
    assert_eq!(got.stream, ConsoleStream::Stdout);
    assert!(sub.rx.try_recv().is_err());
}

#[test]
fn push_without_subscribers_still_records() {
    let mut bus = ConsoleBus::new();
    bus.push(ConsoleLine { timestamp: 7, stream: ConsoleStream::System, line: "x".to_string() });
    let b = bus.backlog();
    assert_eq!(b.len(), 1);
    assert_eq!(b[0].stream, ConsoleStream::System);
}

#[test]
fn console_line_clone_is_equal() {
    let l = ConsoleLine { timestamp: 9, stream: ConsoleStream::Stderr, line: "err".to_string() };
    let c = l.clone();
    assert_eq!(c.timestamp, 9);
    assert_eq!(c.stream, ConsoleStream::Stderr);
    assert_eq!(c.line, "err");
}

#[test]
fn tagged_bus_subscriptions_carry_the_tag() {
    let bus = ConsoleBus::with_owner(42);
    assert_eq!(bus.subscribe().owner, 42);
    assert!(bus.backlog().is_empty());
}
