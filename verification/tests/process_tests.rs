use qemu_harness::process::{
    join_path, Accelerator, ConnectStep, GuestConfig, Machine, QemuPayload, ReadEvent, SerialWatch,
    Socket, WaitStatus, GUEST_RAM_MB, POLL_INTERVAL_MILLIS, TIMEOUT_NANOS,
};

fn config(payload: Option<QemuPayload>, ram_mb: u16) -> GuestConfig {
    GuestConfig {
        ram_mb,
        qmp_sock_path: "/tmp/x/qmp.sock".to_string(),
        serial_sock_path: "/tmp/x/serial.sock".to_string(),
        accel: Accelerator::Kvm,
        machine: Machine::Pc,
        payload,
    }
}

#[test]
fn qemu_args_with_guest_bin() {
    let cfg = config(Some(QemuPayload::GuestBin("/tmp/x/guest.bin".to_string())), 32);
    let expected: Vec<String> = [
        "-display", "none", "-no-reboot", "-cpu", "host",
        "-qmp", "unix:/tmp/x/qmp.sock,server=on,wait=off",
        "-serial", "unix:/tmp/x/serial.sock,server=on,wait=off",
        "-accel", "kvm",
        "-M", "pc",
        "-drive", "format=raw,file=/tmp/x/guest.bin,if=floppy",
        "-m", "32m",
    ]
    .iter()
    .map(|s| s.to_string())
    .collect();
    assert_eq!(cfg.qemu_args(), expected);
}

#[test]
fn qemu_args_without_payload() {
    let args = config(None, 0).qemu_args();
    assert_eq!(args.len(), 15);
    assert_eq!(args[12], "pc");
    assert_eq!(args[13], "-m");
    assert_eq!(args[14], "0m");
}

#[test]
fn qemu_args_memory_sizes() {
    assert_eq!(config(None, 65535).qemu_args()[14], "65535m");
    assert_eq!(config(None, 1000).qemu_args()[14], "1000m");
    assert_eq!(config(None, 7).qemu_args()[14], "7m");
}

#[test]
fn join_path_cases() {
    assert_eq!(join_path("/tmp/abc", "qmp.sock"), "/tmp/abc/qmp.sock");
    assert_eq!(join_path("/tmp/abc/", "qmp.sock"), "/tmp/abc/qmp.sock");
    assert_eq!(join_path("", "qmp.sock"), "qmp.sock");
    assert_eq!(join_path("/tmp/abc", "/etc/x"), "/etc/x");
    assert_eq!(join_path("rel", "a/b"), "rel/a/b");
}

#[test]
fn guest_config_for_spawn() {
    let cfg = GuestConfig::new("/tmp/d", &QemuPayload::GuestBin("/tmp/d/guest.bin".to_string()));
    assert_eq!(cfg.ram_mb, GUEST_RAM_MB);
    assert_eq!(cfg.ram_mb, 32);
    assert_eq!(cfg.qmp_sock_path, "/tmp/d/qmp.sock");
    assert_eq!(cfg.serial_sock_path, "/tmp/d/serial.sock");
    assert!(matches!(cfg.accel, Accelerator::Kvm));
    assert!(matches!(cfg.machine, Machine::Pc));
    match cfg.payload {
        Some(QemuPayload::GuestBin(p)) => assert_eq!(p, "/tmp/d/guest.bin"),
        None => panic!("payload missing"),
    }
    let args = GuestConfig::new("/tmp/d", &QemuPayload::GuestBin("g".to_string())).qemu_args();
    assert_eq!(args[6], "unix:/tmp/d/qmp.sock,server=on,wait=off");
    assert_eq!(args[16], "32m");
}

#[test]
fn payload_clone_keeps_path() {
    let p = QemuPayload::GuestBin("/a/b".to_string());
    match p.clone() {
        QemuPayload::GuestBin(q) => assert_eq!(q, "/a/b"),
    }
}

#[test]
fn socket_connect_steps() {
    let s = Socket::new("/tmp/q.sock".to_string());
    assert_eq!(s.state.path, "/tmp/q.sock");
    assert!(matches!(s.connect_step(true, 0, 10), ConnectStep::Connect));
    assert!(matches!(s.connect_step(true, 100, 10), ConnectStep::Connect));
    match s.connect_step(false, 10, 10) {
        ConnectStep::Sleep(ms) => {
            assert_eq!(ms, POLL_INTERVAL_MILLIS);
            assert_eq!(ms, 50);
        }
        _ => panic!("expected to sleep"),
    }
    match s.connect_step(false, 11, 10) {
        ConnectStep::GiveUp(m) => assert_eq!(m, "timeout waiting for socket: /tmp/q.sock"),
        _ => panic!("expected to give up"),
    }
}

#[test]
fn serial_watch_finds_text_across_lines() {
    let mut w = SerialWatch::new("HELLO FROM GUEST");
    assert!(matches!(w.on_read(ReadEvent::Line("booting...\n".to_string())), WaitStatus::Pending));
    assert!(matches!(w.on_read(ReadEvent::NoData), WaitStatus::Pending));
    assert!(matches!(w.on_read(ReadEvent::Line("HELLO FROM".to_string())), WaitStatus::Pending));
    assert!(matches!(w.on_read(ReadEvent::Line(" GUEST\n".to_string())), WaitStatus::Found));
}

#[test]
fn serial_watch_found_in_one_line() {
    let mut w = SerialWatch::new("ready");
    assert!(matches!(w.on_read(ReadEvent::Line("system is ready now\n".to_string())), WaitStatus::Found));
}

#[test]
fn serial_watch_empty_expected_found_at_first_line() {
    let mut w = SerialWatch::new("");
    assert!(matches!(w.on_read(ReadEvent::Line("x".to_string())), WaitStatus::Found));
}

#[test]
fn serial_watch_unicode_text() {
    let mut w = SerialWatch::new("ü€");
    assert!(matches!(w.on_read(ReadEvent::Line("aü".to_string())), WaitStatus::Pending));
    assert!(matches!(w.on_read(ReadEvent::Line("€b".to_string())), WaitStatus::Found));
}

#[test]
fn serial_watch_errors() {
    let mut w = SerialWatch::new("X");
    match w.on_read(ReadEvent::Closed) {
        WaitStatus::Failed(m) => assert_eq!(m, "connection closed while waiting for X"),
        _ => panic!("expected failure"),
    }
    match w.on_read(ReadEvent::Failed("broken pipe".to_string())) {
        WaitStatus::Failed(m) => assert_eq!(m, "serial read error: broken pipe"),
        _ => panic!("expected failure"),
    }
    assert!(matches!(w.check_deadline(TIMEOUT_NANOS), WaitStatus::Pending));
    match w.check_deadline(TIMEOUT_NANOS + 1) {
        WaitStatus::Failed(m) => assert_eq!(m, "timeout waiting for X"),
        _ => panic!("expected timeout"),
    }
    assert_eq!(TIMEOUT_NANOS, 10_000_000_000);
}
