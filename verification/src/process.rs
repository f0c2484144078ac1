use vstd::prelude::*;
use crate::text::{decimal, push_decimal, chars_of, contains_chars, contains_seq, decimal_value, lemma_decimal_round_trip};

verus! {

/// How long `spawn` waits for each of the QEMU sockets, and how long
/// `SerialWatch` waits for its expected output, in nanoseconds (10 s).
pub const TIMEOUT_NANOS: u128 = 10_000_000_000;

/// How long to sleep between two checks for the socket file, in milliseconds.
pub const POLL_INTERVAL_MILLIS: u64 = 50;

/// The read timeout put on the serial socket, in seconds.
pub const SERIAL_READ_TIMEOUT_SECS: u64 = 5;

/// The guest memory that `spawn` asks for, in MiB.
pub const GUEST_RAM_MB: u16 = 32;

/// The hardware accelerator QEMU runs the guest with.
pub enum Accelerator {
    Kvm,
}

/// The machine type QEMU emulates.
pub enum Machine {
    Pc,
}

/// What the guest boots.
pub enum QemuPayload {
    /// A raw disk image, attached as a floppy drive.
    GuestBin(String),
}

/// Everything the QEMU command line is made from.
pub struct GuestConfig {
    pub ram_mb: u16,
    pub qmp_sock_path: String,
    pub serial_sock_path: String,
    pub accel: Accelerator,
    pub machine: Machine,
    pub payload: Option<QemuPayload>,
}

pub open spec fn accel_name(a: Accelerator) -> Seq<char> {
    match a {
        Accelerator::Kvm => "kvm"@,
    }
}

pub open spec fn machine_name(m: Machine) -> Seq<char> {
    match m {
        Machine::Pc => "pc"@,
    }
}

/// The QEMU endpoint description of a listening unix socket at `path`.
pub open spec fn unix_server_arg(path: Seq<char>) -> Seq<char> {
    "unix:"@ + path + ",server=on,wait=off"@
}

/// The drive description of a raw floppy image at `path`.
pub open spec fn floppy_drive_arg(path: Seq<char>) -> Seq<char> {
    "format=raw,file="@ + path + ",if=floppy"@
}

pub open spec fn payload_args(p: Option<QemuPayload>) -> Seq<Seq<char>> {
    match p {
        None => seq![],
        Some(QemuPayload::GuestBin(path)) => seq!["-drive"@, floppy_drive_arg(path@)],
    }
}

/// The memory size argument, `<ram>m`.
pub open spec fn ram_arg(ram_mb: u16) -> Seq<char> {
    decimal(ram_mb as nat) + "m"@
}

/// The QEMU command line (without the program name) for `cfg`.
pub open spec fn qemu_args_spec(cfg: GuestConfig) -> Seq<Seq<char>> {
    seq![
        "-display"@, "none"@, "-no-reboot"@, "-cpu"@, "host"@,
        "-qmp"@, unix_server_arg(cfg.qmp_sock_path@),
        "-serial"@, unix_server_arg(cfg.serial_sock_path@),
        "-accel"@, accel_name(cfg.accel),
        "-M"@, machine_name(cfg.machine),
    ] + payload_args(cfg.payload) + seq!["-m"@, ram_arg(cfg.ram_mb)]
}

pub open spec fn arg_views(v: Seq<String>) -> Seq<Seq<char>> {
    v.map_values(|s: String| s@)
}

/// The layout of the command line: the QMP and serial sockets follow their
/// options, the floppy image comes right after the machine type when there is
/// one, and the memory size comes last, reading back as `cfg.ram_mb`.
pub proof fn lemma_qemu_args_layout(cfg: GuestConfig)
    ensures
        ({
            let a = qemu_args_spec(cfg);
            &&& a.len() == (if cfg.payload is Some { 17int } else { 15int })
            &&& a[5] == "-qmp"@ && a[6] == unix_server_arg(cfg.qmp_sock_path@)
            &&& a[7] == "-serial"@ && a[8] == unix_server_arg(cfg.serial_sock_path@)
            &&& a[a.len() - 2] == "-m"@ && a[a.len() - 1] == ram_arg(cfg.ram_mb)
            &&& decimal_value(a[a.len() - 1].drop_last()) == cfg.ram_mb
            &&& (cfg.payload matches Some(QemuPayload::GuestBin(p)) ==>
                a[13] == "-drive"@ && a[14] == floppy_drive_arg(p@))
        }),
{
    reveal_strlit("m");
    lemma_decimal_round_trip(cfg.ram_mb as nat);
    assert(ram_arg(cfg.ram_mb).drop_last() =~= decimal(cfg.ram_mb as nat));
    let a = qemu_args_spec(cfg);
    let head = seq![
        "-display"@, "none"@, "-no-reboot"@, "-cpu"@, "host"@,
        "-qmp"@, unix_server_arg(cfg.qmp_sock_path@),
        "-serial"@, unix_server_arg(cfg.serial_sock_path@),
        "-accel"@, accel_name(cfg.accel),
        "-M"@, machine_name(cfg.machine),
    ];
    let mid = payload_args(cfg.payload);
    let tail = seq!["-m"@, ram_arg(cfg.ram_mb)];
    assert(a == head + mid + tail);
    assert(head.len() == 13);
    assert(mid.len() == (if cfg.payload is Some { 2int } else { 0int }));
    assert(a[5] == head[5]);
    assert(a[6] == head[6]);
    assert(a[7] == head[7]);
    assert(a[8] == head[8]);
    assert(a[a.len() - 2] == tail[0]);
    assert(a[a.len() - 1] == tail[1]);
    if cfg.payload is Some {
        assert(a[13] == mid[0]);
        assert(a[14] == mid[1]);
    }
}

fn owned(s: &str) -> (r: String)
    ensures
        r@ == s@,
{
    s.to_string()
}

fn concat3(a: &str, b: &str, c: &str) -> (r: String)
    ensures
        r@ == a@ + b@ + c@,
{
    let mut r = owned(a);
    r.append(b);
    r.append(c);
    r
}

impl GuestConfig {
    /// The arguments QEMU is started with for this configuration.
    pub fn qemu_args(&self) -> (args: Vec<String>)
        ensures
            arg_views(args@) == qemu_args_spec(*self),
    {
        let mut args: Vec<String> = Vec::new();
        args.push(owned("-display"));
        args.push(owned("none"));
        args.push(owned("-no-reboot"));
        args.push(owned("-cpu"));
        args.push(owned("host"));
        args.push(owned("-qmp"));
        args.push(concat3("unix:", self.qmp_sock_path.as_str(), ",server=on,wait=off"));
        args.push(owned("-serial"));
        args.push(concat3("unix:", self.serial_sock_path.as_str(), ",server=on,wait=off"));
        args.push(owned("-accel"));
        match self.accel {
            Accelerator::Kvm => args.push(owned("kvm")),
        }
        args.push(owned("-M"));
        match self.machine {
            Machine::Pc => args.push(owned("pc")),
        }
        match &self.payload {
            Some(QemuPayload::GuestBin(path)) => {
                args.push(owned("-drive"));
                args.push(concat3("format=raw,file=", path.as_str(), ",if=floppy"));
            },
            None => {},
        }
        args.push(owned("-m"));
        let mut ram = String::new();
        push_decimal(&mut ram, self.ram_mb as u64);
        ram.append("m");
        args.push(ram);
        proof {
            assert(arg_views(args@) =~= qemu_args_spec(*self));
        }
        args
    }
}


impl Clone for QemuPayload {
    /// A copy of this payload.
    fn clone(&self) -> (r: QemuPayload)
        ensures
            r == *self,
    {
        match self {
            QemuPayload::GuestBin(path) => QemuPayload::GuestBin(path.clone()),
        }
    }
}

/// The path of the entry `name` in the directory `dir`: `name` itself when
/// it is absolute or `dir` is empty, else `dir` and `name` with one `/`
/// between them.
pub open spec fn joined_path(dir: Seq<char>, name: Seq<char>) -> Seq<char> {
    if name.len() > 0 && name[0] == '/' {
        name
    } else if dir.len() == 0 || dir.last() == '/' {
        dir + name
    } else {
        dir + "/"@ + name
    }
}

/// A joined path ends with the entry's name, and, for a relative name,
/// starts with the directory.
pub proof fn lemma_joined_path_parts(dir: Seq<char>, name: Seq<char>)
    ensures
        ({
            let j = joined_path(dir, name);
            &&& name.len() <= j.len()
            &&& j.subrange(j.len() - name.len(), j.len() as int) == name
            &&& !(name.len() > 0 && name[0] == '/') ==> j.subrange(0, dir.len() as int) == dir
        }),
{
    let j = joined_path(dir, name);
    assert(j.subrange(j.len() - name.len(), j.len() as int) =~= name);
    if !(name.len() > 0 && name[0] == '/') {
        assert(j.subrange(0, dir.len() as int) =~= dir);
    }
}

/// The path of the entry `name` in the directory `dir`.
pub fn join_path(dir: &str, name: &str) -> (r: String)
    ensures
        r@ == joined_path(dir@, name@),
{
    let name_len = name.unicode_len();
    if name_len > 0 && name.get_char(0) == '/' {
        return owned(name);
    }
    let dir_len = dir.unicode_len();
    let mut r = owned(dir);
    if dir_len > 0 && dir.get_char(dir_len - 1) != '/' {
        r.append("/");
    }
    r.append(name);
    r
}

impl GuestConfig {
    /// The configuration `spawn` starts a guest with: 32 MiB of memory, KVM,
    /// the `pc` machine, `payload`, and the QMP and serial sockets
    /// `qmp.sock` and `serial.sock` in `tmp_dir`.
    pub fn new(tmp_dir: &str, payload: &QemuPayload) -> (cfg: GuestConfig)
        ensures
            cfg.ram_mb == GUEST_RAM_MB,
            cfg.qmp_sock_path@ == joined_path(tmp_dir@, "qmp.sock"@),
            cfg.serial_sock_path@ == joined_path(tmp_dir@, "serial.sock"@),
            cfg.accel is Kvm,
            cfg.machine is Pc,
            cfg.payload == Some(*payload),
    {
        GuestConfig {
            ram_mb: GUEST_RAM_MB,
            serial_sock_path: join_path(tmp_dir, "serial.sock"),
            qmp_sock_path: join_path(tmp_dir, "qmp.sock"),
            payload: Some(payload.clone()),
            accel: Accelerator::Kvm,
            machine: Machine::Pc,
        }
    }
}

/// A socket that has not been connected yet: the path it will be reached at.
pub struct Unconnected {
    pub path: String,
}

/// A socket in the state `State` of its life.
pub struct Socket<State> {
    pub state: State,
}

/// What `connect` does next.
pub enum ConnectStep {
    /// The socket file exists: connect to it.
    Connect,
    /// Sleep this many milliseconds and look again.
    Sleep(u64),
    /// Give up with this message.
    GiveUp(String),
}

impl Socket<Unconnected> {
    pub fn new(path: String) -> (s: Self)
        ensures
            s.state.path == path,
    {
        Socket { state: Unconnected { path } }
    }

    /// The decision `connect` takes after seeing whether the socket file
    /// exists, `elapsed_nanos` after it started, with a limit of
    /// `timeout_nanos`.
    pub fn connect_step(&self, path_exists: bool, elapsed_nanos: u128, timeout_nanos: u128) -> (step: ConnectStep)
        ensures
            path_exists ==> step is Connect,
            !path_exists && elapsed_nanos > timeout_nanos ==> (step matches ConnectStep::GiveUp(m)
                && m@ == "timeout waiting for socket: "@ + self.state.path@),
            !path_exists && elapsed_nanos <= timeout_nanos ==> step == ConnectStep::Sleep(POLL_INTERVAL_MILLIS),
    {
        if path_exists {
            ConnectStep::Connect
        } else if elapsed_nanos > timeout_nanos {
            let mut m = owned("timeout waiting for socket: ");
            m.append(self.state.path.as_str());
            ConnectStep::GiveUp(m)
        } else {
            ConnectStep::Sleep(POLL_INTERVAL_MILLIS)
        }
    }
}

/// What the serial reader handed back.
pub enum ReadEvent {
    /// A line of this text (with its line end, if it had one).
    Line(String),
    /// End of stream: the other side closed the connection.
    Closed,
    /// Nothing came before the read timeout (`WouldBlock` or `TimedOut`).
    NoData,
    /// The read failed with this error text.
    Failed(String),
}

/// Where the wait for an expected piece of serial output stands.
pub enum WaitStatus {
    /// The expected text has appeared in the output.
    Found,
    /// Keep reading.
    Pending,
    /// Stop with this error message.
    Failed(String),
}

/// Watches serial output for an expected piece of text, line by line.
pub struct SerialWatch {
    output: Vec<char>,
    expected: String,
    expected_chars: Vec<char>,
}

impl SerialWatch {
    #[verifier::type_invariant]
    spec fn well_formed(self) -> bool {
        self.expected_chars@ == self.expected@
    }

    /// All output seen so far.
    pub closed spec fn output_seen(self) -> Seq<char> {
        self.output@
    }

    /// The text waited for.
    pub closed spec fn expected_text(self) -> Seq<char> {
        self.expected@
    }

    /// Starts waiting for `expected`, with no output seen yet.
    pub fn new(expected: &str) -> (w: Self)
        ensures
            w.output_seen() == Seq::<char>::empty(),
            w.expected_text() == expected@,
    {
        SerialWatch { output: Vec::new(), expected: owned(expected), expected_chars: chars_of(expected) }
    }

    /// Decided before each read: past the timeout, the wait fails.
    pub fn check_deadline(&self, elapsed_nanos: u128) -> (st: WaitStatus)
        ensures
            elapsed_nanos > TIMEOUT_NANOS ==> (st matches WaitStatus::Failed(m)
                && m@ == "timeout waiting for "@ + self.expected_text()),
            elapsed_nanos <= TIMEOUT_NANOS ==> st is Pending,
    {
        if elapsed_nanos > TIMEOUT_NANOS {
            let mut m = owned("timeout waiting for ");
            m.append(self.expected.as_str());
            WaitStatus::Failed(m)
        } else {
            WaitStatus::Pending
        }
    }

    /// Takes in what one read gave.
    pub fn on_read(&mut self, ev: ReadEvent) -> (st: WaitStatus)
        ensures
            final(self).expected_text() == old(self).expected_text(),
            match ev {
                ReadEvent::Line(line) => {
                    &&& final(self).output_seen() == old(self).output_seen() + line@
                    &&& (st is Found <==> contains_seq(final(self).output_seen(), final(self).expected_text()))
                    &&& (st is Found || st is Pending)
                },
                ReadEvent::Closed => {
                    &&& final(self).output_seen() == old(self).output_seen()
                    &&& st matches WaitStatus::Failed(m)
                    &&& m@ == "connection closed while waiting for "@ + old(self).expected_text()
                },
                ReadEvent::NoData => {
                    &&& final(self).output_seen() == old(self).output_seen()
                    &&& st is Pending
                },
                ReadEvent::Failed(e) => {
                    &&& final(self).output_seen() == old(self).output_seen()
                    &&& st matches WaitStatus::Failed(m)
                    &&& m@ == "serial read error: "@ + e@
                },
            },
    {
        proof { use_type_invariant(&*self); }
        match ev {
            ReadEvent::Line(line) => {
                let chars = chars_of(line.as_str());
                let mut out: Vec<char> = Vec::new();
                std::mem::swap(&mut out, &mut self.output);
                let ghost start = out@;
                let mut i: usize = 0;
                while i < chars.len()
                    invariant
                        i <= chars@.len(),
                        chars@ == line@,
                        out@ == start + chars@.subrange(0, i as int),
                    decreases chars@.len() - i,
                {
                    out.push(chars[i]);
                    i = i + 1;
                }
                proof {
                    assert(chars@.subrange(0, chars@.len() as int) =~= chars@);
                }
                self.output = out;
                if contains_chars(&self.output, &self.expected_chars) {
                    WaitStatus::Found
                } else {
                    WaitStatus::Pending
                }
            },
            ReadEvent::Closed => {
                let mut m = owned("connection closed while waiting for ");
                m.append(self.expected.as_str());
                WaitStatus::Failed(m)
            },
            ReadEvent::NoData => WaitStatus::Pending,
            ReadEvent::Failed(e) => {
                let mut m = owned("serial read error: ");
                m.append(e.as_str());
                WaitStatus::Failed(m)
            },
        }
    }
}

} // verus!
