use sysinfo::cgroup::{get_cgroup_mounts, mounts_decodable_check};
use sysinfo::cgroup::read_table_key;
use sysinfo::cgroup::{parse_cgroup_mounts, parse_cgroup_path, CGroupMount, CGroupMounts, CGroupPath};

fn p(s: &str) -> Vec<u8> {
    s.as_bytes().to_vec()
}

#[test]
fn test_parse_cgroup_mounts() {
    assert_eq!(
        parse_cgroup_mounts(
            "29 23 0:28 /kubepods\\040burstable /sys/fs/cgroup/memory\\040controller rw,nosuid,nodev,noexec - cgroup cgroup rw,memory\n\
             30 23 0:29 / /sys/fs/cgroup rw,nosuid,nodev,noexec shared:1 master:2 propagate_from:3 unbindable x-extra:y - cgroup2 cgroup rw\n\
             31 23 0:30 / /sys/fs/cgroup/cpu rw,nosuid,nodev,noexec - cgroup cgroup rw,cpu\n",
        ),
        CGroupMounts {
            v2: vec![CGroupMount {
                root: Vec::new(),
                mount_point: p("/sys/fs/cgroup"),
            }],
            v1_memory: vec![CGroupMount {
                root: p("kubepods burstable"),
                mount_point: p("/sys/fs/cgroup/memory controller"),
            }],
        }
    );
}

#[test]
fn test_parse_cgroup_path_keeps_literal_path_bytes() {
    assert_eq!(
        parse_cgroup_path("11:memory:/kubepods\\040literal/a:b c\n0::/unified\\011path\n"),
        CGroupPath {
            v2: Some(p("unified\\011path")),
            v1_memory: Some(p("kubepods\\040literal/a:b c")),
        }
    );
}

#[test]
fn test_parse_cgroup_path_v2() {
    assert_eq!(
        parse_cgroup_path("0::/user.slice/session.scope"),
        CGroupPath {
            v2: Some(p("user.slice/session.scope")),
            v1_memory: None,
        }
    );
}

#[test]
fn test_parse_cgroup_path_v1_memory() {
    assert_eq!(
        parse_cgroup_path("12:cpuset:/\n11:memory:/system.slice/service.scope"),
        CGroupPath {
            v2: None,
            v1_memory: Some(p("system.slice/service.scope")),
        }
    );
}

#[test]
fn test_parse_cgroup_path_hybrid() {
    assert_eq!(
        parse_cgroup_path("0::/system.slice/service.scope\n11:memory:/kubepods/pod/container\n"),
        CGroupPath {
            v2: Some(p("system.slice/service.scope")),
            v1_memory: Some(p("kubepods/pod/container")),
        }
    );
}

#[test]
fn test_parse_cgroup_path_missing_memory_controller() {
    assert_eq!(parse_cgroup_path("12:cpuset:/\n10:cpu:/"), CGroupPath::default());
}

fn table(content: &str, sep: u8) -> Vec<(Vec<u8>, u64)> {
    sysinfo::cgroup::read_table(content.as_bytes(), sep)
}

fn lookup(entries: &[(Vec<u8>, u64)], key: &str) -> Option<u64> {
    entries.iter().rev().find(|(k, _)| k.as_slice() == key.as_bytes()).map(|(_, v)| *v)
}

#[test]
fn test_read_table() {
    let result = table("KEY1:100 kB\nKEY2:200 kB\nKEY3:300 kB\nKEY4:invalid\n", b':');
    assert_eq!(lookup(&result, "KEY1"), Some(100));
    assert_eq!(lookup(&result, "KEY2"), Some(200));
    assert_eq!(lookup(&result, "KEY3"), Some(300));
    assert_eq!(lookup(&result, "KEY4"), None);

    let result = table("KEY1 400 MB\nKEY2 500 GB\nKEY3 600\n", b' ');
    assert_eq!(lookup(&result, "KEY1"), Some(400));
    assert_eq!(lookup(&result, "KEY2"), Some(500));
    assert_eq!(lookup(&result, "KEY3"), Some(600));

    let result = table("", b':');
    assert!(result.is_empty());
}

#[test]
fn test_read_table_key() {
    let content = b"KEY1:100 kB\nKEY2:200 kB\nKEY3:300 kB\n";
    assert_eq!(read_table_key(content, b"KEY1", b':'), Some(100));
    assert_eq!(read_table_key(content, b"KEY2", b':'), Some(200));
    assert_eq!(read_table_key(content, b"KEY3", b':'), Some(300));
    assert_eq!(read_table_key(content, b"KEY4", b':'), None);

    let content = b"KEY1 400 kB\nKEY2 500 kB\n";
    assert_eq!(read_table_key(content, b"KEY1", b' '), Some(400));
    assert_eq!(read_table_key(content, b"KEY2", b' '), Some(500));
    assert_eq!(read_table_key(b"", b"KEY1", b':'), None);
}

#[test]
fn mountinfo_escapes_must_stand_for_bytes() {
    let good = "29 23 0:28 /a\\040b /sys/fs/cgroup/memory rw - cgroup cgroup rw,memory\n";
    assert!(mounts_decodable_check(good));
    let bad = "29 23 0:28 /a\\777b /sys/fs/cgroup/memory rw - cgroup cgroup rw,memory\n";
    assert!(!mounts_decodable_check(bad));
    // Escapes in lines that are not mounts are not decoded.
    assert!(mounts_decodable_check("short \\777 line\n"));
    let m = get_cgroup_mounts(Some(good)).unwrap();
    assert_eq!(m.v1_memory.len(), 1);
    assert_eq!(m.v1_memory[0].root, p("a b"));
    assert!(get_cgroup_mounts(None).is_none());
}

#[test]
fn joined_mountinfo_texts_concatenate() {
    let a = "30 24 0:26 / /sys/fs/cgroup rw - cgroup2 cgroup2 rw\n31 24 0:27 / /sys/fs/cgroup/memory rw - cgroup cgroup rw,memory";
    let b = "40 24 0:28 /docker /sys/fs/cgroup2 rw - cgroup2 cgroup2 rw";
    let joined = format!("{a}\n{b}");
    let pa = parse_cgroup_mounts(a);
    let pb = parse_cgroup_mounts(b);
    let pj = parse_cgroup_mounts(&joined);
    assert_eq!(pj.v2, [pa.v2.clone(), pb.v2.clone()].concat());
    assert_eq!(pj.v1_memory, [pa.v1_memory.clone(), pb.v1_memory.clone()].concat());
    assert_eq!(pj.v2.len(), 2);
}

#[test]
fn later_cgroup_line_overrides() {
    let a = "0::/first\n5:memory:/m1";
    let b = "0::/second";
    let joined = format!("{a}\n{b}");
    let pj = parse_cgroup_path(&joined);
    let pa = parse_cgroup_path(a);
    let pb = parse_cgroup_path(b);
    assert_eq!(pj.v2, pb.v2.clone().or(pa.v2.clone()));
    assert_eq!(pj.v1_memory, pb.v1_memory.clone().or(pa.v1_memory.clone()));
    assert_eq!(pj.v2, Some(b"second".to_vec()));
}
