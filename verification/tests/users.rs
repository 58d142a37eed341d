use sysinfo::common::{Gid, Uid};
use sysinfo::users::{get_users, UserInner};

fn names(users: &[UserInner]) -> Vec<String> {
    users.iter().map(|u| u.name().to_owned()).collect()
}

#[test]
fn reads_users_from_the_password_database() {
    let passwd = b"root:x:0:0:root:/root:/bin/bash\n\
daemon:x:1:1:daemon:/usr/sbin:/usr/sbin/nologin\n\
nobody:x:65534:65534:nobody:/nonexistent:/usr/sbin/nologin\n\
sync:x:4:65534:sync:/bin:/bin/false\n\
uucp:x:10:14:uucp:/var/spool/uucppublic:/usr/lib/uucp/uucico\n\
big:x:70000:70000::/home/big:/bin/sh\n\
alice:x:1000:1000:Alice:/home/alice:/bin/zsh\n";
    let mut users = Vec::new();
    get_users(&mut users, passwd);
    assert_eq!(names(&users), vec!["root", "daemon", "nobody", "alice"]);
    assert_eq!(*users[3].id(), Uid(1000));
    assert_eq!(users[3].group_id(), Gid(1000));
    assert_eq!(users[0].c_user(), b"root\0");
}

#[test]
fn first_valid_line_of_a_name_wins() {
    let passwd = b"bob:x:oops:1:::/bin/sh\nbob:x:1001:1001:::/bin/sh\nbob:x:1002:1002:::/bin/sh\n";
    let mut users = Vec::new();
    get_users(&mut users, passwd);
    assert_eq!(names(&users), vec!["bob"]);
    assert_eq!(*users[0].id(), Uid(1001));
}

#[test]
fn skips_malformed_lines_and_clears_the_list() {
    let mut users = Vec::new();
    get_users(&mut users, b"carol:x:1:1:::/bin/sh\n");
    assert_eq!(users.len(), 1);
    let passwd = b"short:x:1:1\n\xff\xfe:x:2:2:::/bin/sh\nplus:x:+7:8:::/bin/sh\nneg:x:-1:8:::/bin/sh\n";
    get_users(&mut users, passwd);
    assert_eq!(names(&users), vec!["plus"]);
    assert_eq!(*users[0].id(), Uid(7));
    assert_eq!(users[0].group_id(), Gid(8));
}

#[test]
fn builds_the_c_name() {
    let u = UserInner::new(Uid(5), Gid(6), "émile".to_owned());
    assert_eq!(u.c_user(), "émile\0".as_bytes());
    assert_eq!(u.name(), "émile");
}
