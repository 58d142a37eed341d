//! Security identifiers, the users of the machine and performance-counter keys of
//! the Windows part.
use vstd::prelude::*;
use crate::common::Gid;
use crate::text::bytes_eq;

verus! {

/// A security identifier, held as its bytes. Its first byte, the revision, is 1:
/// only such identifiers can be compared and hashed byte by byte.
#[derive(Debug, Hash)]
pub struct Sid {
    sid: Vec<u8>,
}

impl Sid {
    /// The invariant: the identifier has revision 1.
    #[verifier::type_invariant]
    spec fn revision_is_one(self) -> bool {
        self.sid@.len() > 0 && self.sid@[0] == 1
    }

    /// The bytes of the identifier.
    pub closed spec fn bytes(self) -> Seq<u8> {
        self.sid@
    }

    /// An identifier made of a copy of `raw`, the bytes of a valid SID; its revision
    /// must be 1.
    pub fn from_bytes(raw: &[u8]) -> (r: Sid)
        requires
            raw@.len() > 0,
            raw@[0] == 1,
        ensures
            r.bytes() == raw@,
    {
        let mut sid: Vec<u8> = Vec::new();
        let mut i: usize = 0;
        while i < raw.len()
            invariant
                i <= raw@.len(),
                sid@ == raw@.subrange(0, i as int),
            decreases raw@.len() - i,
        {
            sid.push(raw[i]);
            i = i + 1;
            proof {
                assert(sid@ =~= raw@.subrange(0, i as int));
            }
        }
        proof {
            assert(sid@ =~= raw@);
        }
        Sid { sid }
    }

    /// The identifier's bytes.
    pub fn as_bytes(&self) -> (r: &[u8])
        ensures
            r@ == self.bytes(),
            r@.len() > 0,
            r@[0] == 1,
    {
        proof {
            use_type_invariant(self);
        }
        self.sid.as_slice()
    }
}

impl Clone for Sid {
    /// A copy with the same bytes.
    fn clone(&self) -> (r: Sid)
        ensures
            r.bytes() == self.bytes(),
    {
        proof {
            use_type_invariant(self);
        }
        let sid = self.sid.clone();
        proof {
            assert(sid@ =~= self.sid@);
        }
        Sid { sid }
    }
}

/// The key under which a performance counter was registered.
pub struct KeyHandler {
    pub unique_id: String,
}

impl KeyHandler {
    /// A key for the counter named `unique_id`.
    pub fn new(unique_id: String) -> (r: KeyHandler)
        ensures
            r.unique_id@ == unique_id@,
    {
        KeyHandler { unique_id }
    }
}

// ---------------------------------------------------------------------------
// Users
// ---------------------------------------------------------------------------

/// A user of Windows: its security identifier, its group id (always 0), its name
/// and its local groups.
pub struct WinUser {
    pub uid: Sid,
    pub gid: Gid,
    pub name: String,
    pub groups: Vec<String>,
}

/// The logon type `Network` of a logon session (`SECURITY_LOGON_TYPE`).
pub const NETWORK_LOGON: u32 = 3;

/// A list of names as plain values.
pub open spec fn names_view(v: Seq<String>) -> Seq<Seq<char>> {
    v.map_values(|s: String| s@)
}

/// A user as plain values: its identifier's bytes, its group id, name and groups.
pub type UserView = (Seq<u8>, u32, Seq<char>, Seq<Seq<char>>);

pub open spec fn user_view(u: WinUser) -> UserView {
    (u.uid.bytes(), u.gid.0, u.name@, names_view(u.groups@))
}

/// A local account as plain values: its identifier's bytes, name and groups.
pub open spec fn account_view(a: (Sid, String, Vec<String>)) -> UserView {
    (a.0.bytes(), 0, a.1@, names_view(a.2@))
}

/// Whether one of `users` has the identifier `sid`.
pub open spec fn has_sid(users: Seq<UserView>, sid: Seq<u8>) -> bool {
    exists|i: int| 0 <= i < users.len() && (#[trigger] users[i]).0 == sid
}

/// The users after the logon sessions `sessions` (identifier, user name, logon
/// type) are seen in turn: a session adds its user, without groups, unless it is a
/// network logon or its identifier is already listed.
pub open spec fn with_sessions(users: Seq<UserView>, sessions: Seq<(Sid, String, u32)>) -> Seq<UserView>
    decreases sessions.len(),
{
    if sessions.len() == 0 {
        users
    } else {
        let u = with_sessions(users, sessions.drop_last());
        let s = sessions.last();
        if s.2 == NETWORK_LOGON || has_sid(u, s.0.bytes()) {
            u
        } else {
            u.push((s.0.bytes(), 0, s.1@, seq![]))
        }
    }
}

/// The users of Windows: the local accounts (identifier, name, groups), in order,
/// then the users of the logon sessions that `with_sessions` adds.
pub fn merge_users(accounts: Vec<(Sid, String, Vec<String>)>, sessions: Vec<(Sid, String, u32)>) -> (r: Vec<
    WinUser,
>)
    ensures
        r@.map_values(|u: WinUser| user_view(u)) == with_sessions(
            accounts@.map_values(|a: (Sid, String, Vec<String>)| account_view(a)),
            sessions@,
        ),
{
    let ghost acc = accounts@;
    let ghost av = acc.map_values(|a: (Sid, String, Vec<String>)| account_view(a));
    let n = accounts.len();
    let mut rest = accounts;
    let mut users: Vec<WinUser> = Vec::new();
    let mut i: usize = 0;
    while i < n
        invariant
            i <= n == acc.len(),
            av == acc.map_values(|a: (Sid, String, Vec<String>)| account_view(a)),
            rest@ == acc.subrange(i as int, n as int),
            users@.map_values(|u: WinUser| user_view(u)) == av.take(i as int),
        decreases n - i,
    {
        let (uid, name, groups) = rest.remove(0);
        let ghost before = users@.map_values(|u: WinUser| user_view(u));
        proof {
            assert(acc[i as int] == (uid, name, groups));
        }
        let u = WinUser { uid, gid: Gid(0), name, groups };
        users.push(u);
        proof {
            assert(users@.map_values(|u: WinUser| user_view(u)) =~= before.push(user_view(u)));
            assert(av.take(i + 1) =~= av.take(i as int).push(av[i as int]));
        }
        i = i + 1;
    }
    proof {
        assert(av.take(n as int) =~= av);
    }
    let ghost ses = sessions@;
    let m = sessions.len();
    let mut rest = sessions;
    let mut k: usize = 0;
    while k < m
        invariant
            k <= m == ses.len(),
            rest@ == ses.subrange(k as int, m as int),
            users@.map_values(|u: WinUser| user_view(u)) == with_sessions(av, ses.take(k as int)),
        decreases m - k,
    {
        let (sid, name, logon_type) = rest.remove(0);
        proof {
            assert(ses[k as int] == (sid, name, logon_type));
            assert(ses.take(k + 1).drop_last() =~= ses.take(k as int));
            assert(ses.take(k + 1).last() == ses[k as int]);
        }
        let ghost uv = users@.map_values(|u: WinUser| user_view(u));
        if logon_type != NETWORK_LOGON {
            let mut found = false;
            let mut j: usize = 0;
            while j < users.len()
                invariant
                    j <= users@.len(),
                    uv == users@.map_values(|u: WinUser| user_view(u)),
                    found <==> exists|t: int| 0 <= t < j && (#[trigger] uv[t]).0 == sid.bytes(),
                decreases users@.len() - j,
            {
                let b = users[j].uid.as_bytes();
                if bytes_eq(b, sid.as_bytes()) {
                    found = true;
                }
                proof {
                    assert(uv[j as int].0 == users@[j as int].uid.bytes());
                }
                j = j + 1;
            }
            if !found {
                let u = WinUser { uid: sid, gid: Gid(0), name, groups: Vec::new() };
                users.push(u);
                proof {
                    assert(names_view(u.groups@) =~= Seq::<Seq<char>>::empty());
                    assert(users@.map_values(|u: WinUser| user_view(u)) =~= uv.push(user_view(u)));
                }
            }
        }
        k = k + 1;
    }
    proof {
        assert(ses.take(m as int) =~= ses);
    }
    users
}

/// The users listed from the logon sessions are new: the local accounts come first,
/// in order; every user has the group id 0; a user added after them has no groups,
/// was not seen through a network logon, and has an identifier that no user before
/// it has.
pub proof fn merged_users_laws(accounts: Seq<UserView>, sessions: Seq<(Sid, String, u32)>)
    requires
        forall|i: int| 0 <= i < accounts.len() ==> (#[trigger] accounts[i]).1 == 0,
    ensures
        ({
            let r = with_sessions(accounts, sessions);
            &&& accounts.len() <= r.len() <= accounts.len() + sessions.len()
            &&& r.take(accounts.len() as int) == accounts
            &&& forall|i: int| 0 <= i < r.len() ==> (#[trigger] r[i]).1 == 0
            &&& forall|i: int| accounts.len() <= i < r.len() ==> (#[trigger] r[i]).3.len() == 0
                && forall|j: int| 0 <= j < i ==> r[j].0 != r[i].0
            &&& forall|i: int| accounts.len() <= i < r.len() ==> exists|k: int| 0 <= k < sessions.len()
                && (#[trigger] sessions[k]).2 != NETWORK_LOGON && sessions[k].0.bytes() == (#[trigger] r[i]).0
        }),
    decreases sessions.len(),
{
    if sessions.len() == 0 {
        assert(accounts.take(accounts.len() as int) =~= accounts);
    } else {
        let sd = sessions.drop_last();
        merged_users_laws(accounts, sd);
        let u = with_sessions(accounts, sd);
        let r = with_sessions(accounts, sessions);
        let s = sessions.last();
        assert forall|i: int| accounts.len() <= i < u.len() implies exists|k: int| 0 <= k < sessions.len()
            && (#[trigger] sessions[k]).2 != NETWORK_LOGON && sessions[k].0.bytes() == (#[trigger] u[i]).0 by {
            let k = choose|k: int| 0 <= k < sd.len() && (#[trigger] sd[k]).2 != NETWORK_LOGON && sd[k].0.bytes() == u[i].0;
            assert(sessions[k] == sd[k]);
        }
        if !(s.2 == NETWORK_LOGON || has_sid(u, s.0.bytes())) {
            assert(r.take(accounts.len() as int) =~= u.take(accounts.len() as int));
            assert forall|i: int| accounts.len() <= i < r.len() implies (#[trigger] r[i]).3.len() == 0
                && forall|j: int| 0 <= j < i ==> r[j].0 != r[i].0 by {
                if i == u.len() {
                    assert forall|j: int| 0 <= j < i implies r[j].0 != r[i].0 by {
                        assert(r[j] == u[j]);
                    }
                } else {
                    assert(r[i] == u[i]);
                    assert forall|j: int| 0 <= j < i implies r[j].0 != r[i].0 by {
                        assert(r[j] == u[j]);
                    }
                }
            }
            assert forall|i: int| accounts.len() <= i < r.len() implies exists|k: int| 0 <= k < sessions.len()
                && (#[trigger] sessions[k]).2 != NETWORK_LOGON && sessions[k].0.bytes() == (#[trigger] r[i]).0 by {
                if i == u.len() {
                    assert(sessions[sessions.len() - 1] == s);
                } else {
                    assert(r[i] == u[i]);
                }
            }
        }
    }
}

} // verus!
