//! The users of a Unix system, read from the password database (`/etc/passwd`).
use vstd::prelude::*;
use vstd::utf8::{valid_utf8, decode_utf8, encode_utf8};
use vstd::string::StringSliceAdditionalSpecFns;
use crate::common::{Gid, Uid};
use crate::text::{
    views, spec_lines, lines, split_on, split_bytes, find_from, lemma_find_from, spec_parse_u64,
    parse_u64, ends_with, copy_range, is_valid_utf8, string_from_utf8, starts_char,
    lemma_valid_utf8_subrange,
};

verus! {

/// A user: identifiers, name, and the name as a NUL-terminated C string.
pub struct UserInner {
    uid: Uid,
    gid: Gid,
    name: String,
    c_user: Vec<u8>,
}

impl View for UserInner {
    /// The name, the user identifier and the group identifier.
    type V = (Seq<char>, u32, u32);

    closed spec fn view(&self) -> (Seq<char>, u32, u32) {
        (self.name@, self.uid.0, self.gid.0)
    }
}

impl UserInner {
    /// The bytes of the C string of the name.
    pub closed spec fn c_user_bytes(self) -> Seq<u8> {
        self.c_user@
    }

    /// A user with the given identifiers and name.
    pub fn new(uid: Uid, gid: Gid, name: String) -> (r: UserInner)
        ensures
            r@ == (name@, uid.0, gid.0),
            r.c_user_bytes() == encode_utf8(name@).push(0u8),
    {
        let bytes = name.as_str().as_bytes();
        let mut c_user = copy_range(bytes, 0, bytes.len());
        c_user.push(0);
        proof {
            assert(bytes@.subrange(0, bytes@.len() as int) =~= bytes@);
        }
        UserInner { uid, gid, name, c_user }
    }

    /// The user's identifier.
    pub fn id(&self) -> (r: &Uid)
        ensures
            r.0 == self@.1,
    {
        &self.uid
    }

    /// The user's group.
    pub fn group_id(&self) -> (r: Gid)
        ensures
            r.0 == self@.2,
    {
        self.gid
    }

    /// The user's name.
    pub fn name(&self) -> (r: &str)
        ensures
            r@ == self@.0,
    {
        self.name.as_str()
    }

    /// Whether the user is named `name`.
    pub fn name_is(&self, name: &String) -> (r: bool)
        ensures
            r == (self@.0 == name@),
    {
        self.name == *name
    }

    /// The name as a NUL-terminated C string, for the group lookup.
    pub fn c_user(&self) -> (r: &[u8])
        ensures
            r@ == self.c_user_bytes(),
    {
        self.c_user.as_slice()
    }
}

/// The value that `u32::from_str` parses from `s`.
pub open spec fn spec_parse_u32(s: Seq<u8>) -> Option<u32> {
    match spec_parse_u64(s) {
        Some(v) => if v <= u32::MAX {
            Some(v as u32)
        } else {
            None
        },
        None => None,
    }
}

/// `/false`.
pub open spec fn false_shell() -> Seq<u8> {
    seq![0x2fu8, 0x66u8, 0x61u8, 0x6cu8, 0x73u8, 0x65u8]
}

/// `/uucico`.
pub open spec fn uucico_shell() -> Seq<u8> {
    seq![0x2fu8, 0x75u8, 0x75u8, 0x63u8, 0x69u8, 0x63u8, 0x6fu8]
}

/// Whether `s` ends with `t`.
pub open spec fn has_suffix(s: Seq<u8>, t: Seq<u8>) -> bool {
    t.len() <= s.len() && s.subrange(s.len() - t.len(), s.len() as int) == t
}

/// Whether an account is a user's: an identifier below 65536 and a shell that is
/// neither `.../false` nor `.../uucico`.
pub open spec fn is_login_account(shell: Seq<u8>, uid: u32) -> bool {
    uid < 65536 && !has_suffix(shell, false_shell()) && !has_suffix(shell, uucico_shell())
}

/// The name, user identifier and group identifier of a line of the password database
/// (`name:password:uid:gid:comment:home:shell`); `None` when the line has too few
/// fields, an identifier is not a number, or the account is not a user's.
pub open spec fn passwd_entry(line: Seq<u8>) -> Option<(Seq<u8>, u32, u32)> {
    let f = split_on(line, 0x3au8);
    if f.len() < 7 {
        None
    } else {
        match (spec_parse_u32(f[2]), spec_parse_u32(f[3])) {
            (Some(uid), Some(gid)) => if is_login_account(f[6], uid) {
                Some((f[0], uid, gid))
            } else {
                None
            },
            _ => None,
        }
    }
}

/// Whether the users `acc` hold one named `name`.
pub open spec fn has_user_named(acc: Seq<(Seq<char>, u32, u32)>, name: Seq<char>) -> bool {
    exists|j: int| 0 <= j < acc.len() && (#[trigger] acc[j]).0 == name
}

/// The users of the database lines `ls[i..]` added to `acc`: lines that are not
/// UTF-8 are skipped, and of two lines with one name the first that is a user's wins.
pub open spec fn passwd_scan(ls: Seq<Seq<u8>>, i: int, acc: Seq<(Seq<char>, u32, u32)>) -> Seq<
    (Seq<char>, u32, u32),
>
    decreases ls.len() - i,
{
    if i < 0 || i >= ls.len() {
        acc
    } else if !valid_utf8(ls[i]) {
        passwd_scan(ls, i + 1, acc)
    } else {
        match passwd_entry(ls[i]) {
            Some(e) => if has_user_named(acc, decode_utf8(e.0)) {
                passwd_scan(ls, i + 1, acc)
            } else {
                passwd_scan(ls, i + 1, acc.push((decode_utf8(e.0), e.1, e.2)))
            },
            None => passwd_scan(ls, i + 1, acc),
        }
    }
}

/// The users listed in the password database `content`.
pub open spec fn passwd_users(content: Seq<u8>) -> Seq<(Seq<char>, u32, u32)> {
    passwd_scan(spec_lines(content), 0, seq![])
}

/// A user as its name and identifiers.
pub open spec fn user_view(u: UserInner) -> (Seq<char>, u32, u32) {
    u@
}

/// Replaces `users` with the users listed in the password database `content`.
pub fn get_users(users: &mut Vec<UserInner>, content: &[u8])
    ensures
        final(users)@.map_values(|u: UserInner| user_view(u)) == passwd_users(content@),
{
    users.clear();
    let ls = lines(content);
    let ghost l = views(ls@);
    let mut i: usize = 0;
    proof {
        assert(users@.map_values(|u: UserInner| user_view(u)) =~= Seq::<(Seq<char>, u32, u32)>::empty());
    }
    while i < ls.len()
        invariant
            i <= ls@.len(),
            l == views(ls@),
            l == spec_lines(content@),
            passwd_scan(l, i as int, users@.map_values(|u: UserInner| user_view(u)))
                == passwd_users(content@),
        decreases ls@.len() - i,
    {
        let line = ls[i].as_slice();
        assert(line@ == l[i as int]);
        let ghost acc = users@.map_values(|u: UserInner| user_view(u));
        if is_valid_utf8(line) {
            let fields = split_bytes(line, 0x3a);
            let ghost f = views(fields@);
            proof {
                // The name ends at the first `:`, where a character starts.
                let k = find_from(line@, 0x3au8, 0);
                lemma_find_from(line@, 0x3au8, 0);
                assert(f[0] == line@.subrange(0, k));
                lemma_valid_utf8_subrange(line@, 0, k);
            }
            let name_bytes = copy_range(fields[0].as_slice(), 0, fields[0].len());
            proof {
                assert(name_bytes@ =~= f[0]);
            }
            if let Some(name) = string_from_utf8(name_bytes) {
                let mut seen = false;
                let mut j: usize = 0;
                while j < users.len()
                    invariant
                        j <= users@.len(),
                        acc == users@.map_values(|u: UserInner| user_view(u)),
                        seen == exists|m: int| 0 <= m < j && (#[trigger] acc[m]).0 == name@,
                    decreases users@.len() - j,
                {
                    if users[j].name_is(&name) {
                        seen = true;
                    }
                    proof {
                        assert(acc[j as int].0 == users@[j as int]@.0);
                    }
                    j = j + 1;
                }
                if !seen && fields.len() >= 7 {
                    assert(fields@[2]@ == f[2] && fields@[3]@ == f[3] && fields@[6]@ == f[6]);
                    let uid = parse_u64(fields[2].as_slice());
                    let gid = parse_u64(fields[3].as_slice());
                    if let (Some(uid), Some(gid)) = (uid, gid) {
                        let false_k: [u8; 6] = [0x2f, 0x66, 0x61, 0x6c, 0x73, 0x65];
                        let uucico_k: [u8; 7] = [0x2f, 0x75, 0x75, 0x63, 0x69, 0x63, 0x6f];
                        proof {
                            assert(false_k@ =~= false_shell());
                            assert(uucico_k@ =~= uucico_shell());
                        }
                        if uid <= 0xffff_ffff && gid <= 0xffff_ffff && uid < 65536 && !ends_with(
                            fields[6].as_slice(),
                            false_k.as_slice(),
                        ) && !ends_with(fields[6].as_slice(), uucico_k.as_slice()) {
                            let u = UserInner::new(Uid(uid as u32), Gid(gid as u32), name);
                            users.push(u);
                            proof {
                                assert(users@.map_values(|u: UserInner| user_view(u)) =~= acc.push(
                                    (decode_utf8(f[0]), uid as u32, gid as u32),
                                ));
                            }
                        }
                    }
                }
            }
        }
        i = i + 1;
    }
}

/// The users that `passwd_scan` adds to users with distinct names have distinct names.
proof fn lemma_passwd_scan_distinct(ls: Seq<Seq<u8>>, i: int, acc: Seq<(Seq<char>, u32, u32)>)
    requires
        forall|a: int, b: int| 0 <= a < b < acc.len() ==> acc[a].0 != acc[b].0,
    ensures
        forall|a: int, b: int|
            0 <= a < b < passwd_scan(ls, i, acc).len() ==> passwd_scan(ls, i, acc)[a].0
                != passwd_scan(ls, i, acc)[b].0,
    decreases ls.len() - i,
{
    if i < 0 || i >= ls.len() {
        assert(passwd_scan(ls, i, acc) == acc);
    } else if !valid_utf8(ls[i]) {
        assert(passwd_scan(ls, i, acc) == passwd_scan(ls, i + 1, acc));
        lemma_passwd_scan_distinct(ls, i + 1, acc);
    } else {
        let oe = passwd_entry(ls[i]);
        let fresh = match oe {
            Some(e) => !has_user_named(acc, decode_utf8(e.0)),
            None => false,
        };
        if fresh {
            let e = oe->0;
            let next = acc.push((decode_utf8(e.0), e.1, e.2));
            assert(passwd_scan(ls, i, acc) == passwd_scan(ls, i + 1, next));
            assert forall|a: int, b: int| 0 <= a < b < next.len() implies next[a].0
                != next[b].0 by {
                if b == acc.len() {
                    if next[a].0 == next[b].0 {
                        assert(acc[a].0 == decode_utf8(e.0));
                        assert(has_user_named(acc, decode_utf8(e.0)));
                    }
                }
            }
            lemma_passwd_scan_distinct(ls, i + 1, next);
        } else {
            assert(passwd_scan(ls, i, acc) == passwd_scan(ls, i + 1, acc));
            lemma_passwd_scan_distinct(ls, i + 1, acc);
        }
    }
}

/// No two users read from a password database share a name.
pub proof fn passwd_users_are_distinct(content: Seq<u8>)
    ensures
        forall|a: int, b: int|
            0 <= a < b < passwd_users(content).len() ==> passwd_users(content)[a].0
                != passwd_users(content)[b].0,
{
    lemma_passwd_scan_distinct(spec_lines(content), 0, seq![]);
}

} // verus!
