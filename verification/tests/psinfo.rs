use sysinfo::common::{Gid, IoCounters, Pid, ProcessRefreshKind, Uid, UpdateKind};
use sysinfo::psinfo::{
    c_field, initial_process, new_process, read_i32, read_i64, read_pointer, read_u16, read_u32, read_u64,
    refresh_needs, timespec_millis, update_process, ByteOrder, Fetched, ProcessInfo,
};
use sysinfo::stat::ProcessStatus;

fn put(buf: &mut [u8], offset: usize, bytes: &[u8]) {
    buf[offset..offset + bytes.len()].copy_from_slice(bytes);
}

fn record() -> Vec<u8> {
    let mut d = vec![0u8; 320];
    put(&mut d, 8, &42i32.to_le_bytes());
    put(&mut d, 12, &7i32.to_le_bytes());
    put(&mut d, 24, &1000u32.to_le_bytes());
    put(&mut d, 28, &1001u32.to_le_bytes());
    put(&mut d, 32, &100u32.to_le_bytes());
    put(&mut d, 36, &101u32.to_le_bytes());
    put(&mut d, 48, &2048u64.to_le_bytes());
    put(&mut d, 56, &512u64.to_le_bytes());
    put(&mut d, 80, &0x4000u16.to_le_bytes());
    put(&mut d, 88, &1_700_000_000i64.to_le_bytes());
    put(&mut d, 104, &3i64.to_le_bytes());
    put(&mut d, 112, &250_000_000i64.to_le_bytes());
    put(&mut d, 136, b"sshd\0junk");
    put(&mut d, 152, b"/usr/sbin/sshd  -D\t-p 22\0");
    put(&mut d, 236, &3i32.to_le_bytes());
    put(&mut d, 240, &0x1000u64.to_le_bytes());
    put(&mut d, 248, &0x2000u64.to_le_bytes());
    d[256] = 0;
    d[314] = b'S';
    d
}

#[test]
fn reads_integers_in_both_byte_orders() {
    let d = [0x01u8, 0x02, 0x03, 0x04, 0x05, 0x06, 0x07, 0x08];
    assert_eq!(read_u16(&d, 0, ByteOrder::Little), Some(0x0201));
    assert_eq!(read_u16(&d, 0, ByteOrder::Big), Some(0x0102));
    assert_eq!(read_u32(&d, 4, ByteOrder::Little), Some(0x08070605));
    assert_eq!(read_u32(&d, 4, ByteOrder::Big), Some(0x05060708));
    assert_eq!(read_u64(&d, 0, ByteOrder::Little), Some(0x0807060504030201));
    assert_eq!(read_u64(&d, 0, ByteOrder::Big), Some(0x0102030405060708));
    assert_eq!(read_u32(&d, 5, ByteOrder::Little), None);
    assert_eq!(read_u64(&d, 1, ByteOrder::Big), None);
}

#[test]
fn reads_signed_integers() {
    let d = (-5i32).to_le_bytes();
    assert_eq!(read_i32(&d, 0, ByteOrder::Little), Some(-5));
    let e = i64::MIN.to_be_bytes();
    assert_eq!(read_i64(&e, 0, ByteOrder::Big), Some(i64::MIN));
    let f = 123i64.to_le_bytes();
    assert_eq!(read_i64(&f, 0, ByteOrder::Little), Some(123));
}

#[test]
fn reads_pointers_of_either_size() {
    let d = [1u8, 0, 0, 0, 2, 0, 0, 0];
    assert_eq!(read_pointer(&d, 0, 4, ByteOrder::Little), Some(1));
    assert_eq!(read_pointer(&d, 0, 8, ByteOrder::Little), Some(0x0000000200000001));
    assert_eq!(read_pointer(&d, 0, 2, ByteOrder::Little), None);
}

#[test]
fn timespec_in_milliseconds() {
    let mut d = vec![0u8; 16];
    put(&mut d, 0, &2i64.to_le_bytes());
    put(&mut d, 8, &1_999_999i64.to_le_bytes());
    assert_eq!(timespec_millis(&d, 0, ByteOrder::Little), Some(2001));
    put(&mut d, 0, &(-9i64).to_le_bytes());
    assert_eq!(timespec_millis(&d, 0, ByteOrder::Little), Some(1));
    put(&mut d, 0, &i64::MAX.to_le_bytes());
    assert_eq!(timespec_millis(&d, 0, ByteOrder::Little), Some(u64::MAX));
    assert_eq!(timespec_millis(&d[..15], 0, ByteOrder::Little), None);
}

#[test]
fn c_fields_stop_at_nul_and_bounds() {
    let d = b"abc\0def";
    assert_eq!(c_field(d, 0, 7), b"abc".to_vec());
    assert_eq!(c_field(d, 4, 3), b"def".to_vec());
    assert_eq!(c_field(d, 4, 4), Vec::<u8>::new());
    assert_eq!(c_field(d, usize::MAX, 2), Vec::<u8>::new());
}

#[test]
fn reads_a_psinfo_record() {
    let d = record();
    let p = ProcessInfo::read(&d, Pid(42), ByteOrder::Little).expect("record of 42");
    assert_eq!(p.pid, Pid(42));
    assert_eq!(p.parent, Some(Pid(7)));
    assert_eq!(p.user_id, Uid(1000));
    assert_eq!(p.effective_user_id, Uid(1001));
    assert_eq!(p.group_id, Gid(100));
    assert_eq!(p.effective_group_id, Gid(101));
    assert_eq!(p.virtual_memory, 2048 * 1024);
    assert_eq!(p.memory, 512 * 1024);
    assert_eq!(p.pctcpu, 0x4000);
    assert_eq!(p.start_time(), 1_700_000_000);
    assert_eq!(p.accumulated_cpu_time, 3250);
    assert_eq!(p.name, b"sshd".to_vec());
    assert_eq!(p.fallback_cmd, vec![b"/usr/sbin/sshd".to_vec(), b"-D".to_vec(), b"-p".to_vec(), b"22".to_vec()]);
    assert_eq!(p.argc, 3);
    assert_eq!(p.pointer_size, 8);
    assert_eq!(p.argv, 0x1000);
    assert_eq!(p.envp, 0x2000);
    assert_eq!(p.status, ProcessStatus::Sleep);
}

#[test]
fn rejects_short_or_foreign_records() {
    let d = record();
    assert!(ProcessInfo::read(&d, Pid(43), ByteOrder::Little).is_none());
    assert!(ProcessInfo::read(&d[..314], Pid(42), ByteOrder::Little).is_none());
    assert!(ProcessInfo::read(&d, Pid(42), ByteOrder::Big).is_none());
}

#[test]
fn thirty_two_bit_model_and_unknown_state() {
    let mut d = record();
    d[256] = 1;
    d[314] = b'W';
    put(&mut d, 12, &0i32.to_le_bytes());
    put(&mut d, 88, &(-1i64).to_le_bytes());
    let p = ProcessInfo::read(&d, Pid(42), ByteOrder::Little).unwrap();
    assert_eq!(p.pointer_size, 4);
    assert_eq!(p.argv, 0x1000);
    assert_eq!(p.parent, None);
    assert_eq!(p.start_time, 0);
    assert_eq!(p.status, ProcessStatus::Unknown(u32::from(b'W')));
    d[314] = b'O';
    assert_eq!(ProcessInfo::read(&d, Pid(42), ByteOrder::Little).unwrap().status, ProcessStatus::Run);
}

fn kind(u: UpdateKind) -> ProcessRefreshKind {
    ProcessRefreshKind {
        cpu: true,
        disk_usage: true,
        memory: true,
        user: u,
        cwd: u,
        root: u,
        environ: u,
        cmd: u,
        exe: u,
    }
}

#[test]
fn new_process_takes_the_record_and_the_readings() {
    let d = record();
    let info = ProcessInfo::read(&d, Pid(42), ByteOrder::Little).unwrap();
    let needs = refresh_needs(&initial_process(&info), kind(UpdateKind::OnlyIfNotSet));
    assert!(needs.exe && needs.cwd && needs.root && needs.cmd && needs.environ);
    let fetched = Fetched {
        exe: Some(b"/usr/sbin/sshd".to_vec()),
        cwd: Some(b"/".to_vec()),
        root: None,
        cmd: Vec::new(),
        environ: vec![b"A=1".to_vec()],
    };
    let p = new_process(&info, 1_700_000_100, kind(UpdateKind::OnlyIfNotSet), fetched);
    assert_eq!(p.run_time, 100);
    assert_eq!(p.memory, 512 * 1024);
    assert_eq!(p.exe, Some(b"/usr/sbin/sshd".to_vec()));
    assert_eq!(p.root, None);
    // Nothing could be read of the command line: the record's short one is used.
    assert_eq!(p.cmd, info.fallback_cmd);
    assert_eq!(p.environ, vec![b"A=1".to_vec()]);
    assert_eq!(p.name, b"sshd".to_vec());
    assert!(p.updated && p.exists);
    assert_eq!(p.disk_usage().read_bytes, 0);
}

#[test]
fn name_falls_back_to_the_command() {
    let mut d = record();
    put(&mut d, 136, &[0u8; 16]);
    let info = ProcessInfo::read(&d, Pid(42), ByteOrder::Little).unwrap();
    let fetched = Fetched {
        exe: None,
        cwd: None,
        root: None,
        cmd: vec![b"/opt/bin/tool/".to_vec(), b"x".to_vec()],
        environ: Vec::new(),
    };
    let p = new_process(&info, 0, kind(UpdateKind::Always), fetched);
    assert_eq!(p.name, b"tool".to_vec());
    assert_eq!(p.run_time, 0);
}

#[test]
fn refresh_keeps_what_is_not_asked_for() {
    let d = record();
    let info = ProcessInfo::read(&d, Pid(42), ByteOrder::Little).unwrap();
    let mut p = initial_process(&info);
    p.exe = Some(b"/bin/old".to_vec());
    p.name = b"known".to_vec();
    p.io = IoCounters { read_bytes: 10, old_read_bytes: 4, written_bytes: 8, old_written_bytes: 8 };
    let k = ProcessRefreshKind { memory: false, cpu: false, ..kind(UpdateKind::OnlyIfNotSet) };
    let needs = refresh_needs(&p, k);
    assert!(!needs.exe && needs.cwd);
    let fetched = Fetched { exe: Some(b"/bin/new".to_vec()), cwd: None, root: None, cmd: Vec::new(), environ: Vec::new() };
    update_process(&info, 5, k, fetched, &mut p);
    assert_eq!(p.exe, Some(b"/bin/old".to_vec()));
    assert_eq!(p.name, b"known".to_vec());
    assert_eq!(p.memory, 0);
    assert_eq!(p.io.old_read_bytes, 10);
    assert_eq!(p.disk_usage().read_bytes, 0);
    assert_eq!(p.run_time, 0);
}
