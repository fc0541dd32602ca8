//! Wire-request parsing: the line format checks and dispatch decisions,
//! free of any socket work.

use vstd::prelude::*;
use crate::strutil::{str_chars, chars_to_string};
use crate::diskinterface::{DiskInterface, DiskError, FileBase, spec_user_index};

verus! {

/// What one protocol line asks for: a malformed line, a login naming a
/// user, a login with an empty user, or a command against a database.
#[derive(Debug)]
pub enum Request {
    BadRequest,
    UserMissing,
    Login(String),
    Run { user: String, db: String, cmd: String },
}

/// Index of the first `||` separator at or after `i`, or the length.
pub open spec fn sep_pos(s: Seq<char>, i: int) -> int
    decreases s.len() - i,
{
    if !(0 <= i) || i + 1 > s.len() - 1 {
        s.len() as int
    } else if s[i] == '|' && s[i + 1] == '|' {
        i
    } else {
        sep_pos(s, i + 1)
    }
}

pub proof fn lemma_sep_pos(s: Seq<char>, i: int)
    requires
        0 <= i <= s.len(),
    ensures
        i <= sep_pos(s, i) <= s.len(),
        forall|j: int| i <= j < sep_pos(s, i) && j + 1 < s.len() ==> !(#[trigger] s[j] == '|'
            && s[j + 1] == '|'),
        sep_pos(s, i) + 1 < s.len() ==> s[sep_pos(s, i)] == '|' && s[sep_pos(s, i) + 1] == '|',
        sep_pos(s, i) < s.len() ==> sep_pos(s, i) + 1 < s.len(),
    decreases s.len() - i,
{
    if i + 1 > s.len() - 1 {
    } else if s[i] == '|' && s[i + 1] == '|' {
    } else {
        lemma_sep_pos(s, i + 1);
    }
}

/// The fields of a line split at each `||`, leftmost first.
pub open spec fn split_fields(s: Seq<char>, i: int) -> Seq<Seq<char>>
    decreases s.len() - i,
{
    if !(0 <= i <= s.len()) {
        Seq::empty()
    } else if i == s.len() {
        seq![Seq::<char>::empty()]
    } else {
        let p = sep_pos(s, i);
        if p >= s.len() {
            seq![s.subrange(i, s.len() as int)]
        } else {
            let np = if p + 2 <= s.len() && p + 2 > i {
                p + 2
            } else {
                i + 1
            };
            seq![s.subrange(i, p)] + split_fields(s, np)
        }
    }
}

/// Splits a line at each `||`.
#[verifier::loop_isolation(false)]
pub fn split_line(line: &str) -> (r: Vec<String>)
    ensures
        r.deep_view() == split_fields(line@, 0),
{
    let cs = str_chars(line);
    let n = cs.len();
    let mut out: Vec<String> = Vec::new();
    let mut i: usize = 0;
    proof {
        assert(out.deep_view() =~= Seq::<Seq<char>>::empty());
        assert(out.deep_view() + split_fields(line@, 0) =~= split_fields(line@, 0));
    }
    loop
        invariant
            i <= n,
            n == line@.len(),
            cs@ == line@,
            split_fields(line@, 0) == out.deep_view() + split_fields(line@, i as int),
        decreases n - i,
    {
        let ghost p0 = i as int;
        // find the next separator
        let mut j: usize = i;
        while j < n && j + 1 < n && !(cs[j] == '|' && cs[j + 1] == '|')
            invariant
                i <= j <= n,
                forall|q: int| i <= q < j && q + 1 < n ==> !(#[trigger] line@[q] == '|'
                    && line@[q + 1] == '|'),
            decreases n - j,
        {
            j += 1;
        }
        let p = if j < n && j + 1 < n { j } else { n };
        proof {
            if j + 1 < n {
                lemma_sep_pos_unique(line@, i as int, j as int);
            } else {
                lemma_sep_pos_unique(line@, i as int, n as int);
            }
            assert(sep_pos(line@, i as int) == p);
        }
        let mut piece: Vec<char> = Vec::new();
        let mut q: usize = i;
        while q < p
            invariant
                i <= q <= p <= n,
                n == line@.len(),
                cs@ == line@,
                piece@ =~= line@.subrange(i as int, q as int),
            decreases p - q,
        {
            piece.push(cs[q]);
            proof {
                assert(piece@ =~= line@.subrange(i as int, q + 1));
            }
            q += 1;
        }
        let ghost before = out.deep_view();
        out.push(chars_to_string(&piece));
        proof {
            assert(out.deep_view() =~= before.push(line@.subrange(p0, p as int)));
        }
        if p >= n {
            proof {
                if p0 == n {
                    assert(line@.subrange(p0, n as int) =~= Seq::<char>::empty());
                    assert(split_fields(line@, p0) =~= seq![line@.subrange(p0, n as int)]);
                } else {
                    assert(split_fields(line@, p0) =~= seq![line@.subrange(p0, n as int)]);
                }
                assert(out.deep_view() =~= before + split_fields(line@, p0));
            }
            return out;
        }
        proof {
            assert(p0 < n);
            assert(p + 2 <= n && p + 2 > p0) by {
                lemma_sep_pos(line@, p0);
            }
            assert(split_fields(line@, p0) =~= seq![line@.subrange(p0, p as int)]
                + split_fields(line@, p + 2));
            match split_fields(line@, p + 2) {
                rest2 => {
                    assert(before + (seq![line@.subrange(p0, p as int)] + rest2)
                        =~= out.deep_view() + rest2);
                },
            }
        }
        i = p + 2;
    }
}

pub proof fn lemma_sep_pos_unique(s: Seq<char>, i: int, p: int)
    requires
        0 <= i <= p <= s.len(),
        forall|q: int| i <= q < p && q + 1 < s.len() ==> !(#[trigger] s[q] == '|' && s[q + 1]
            == '|'),
        p + 1 < s.len() ==> (s[p] == '|' && s[p + 1] == '|'),
        p < s.len() ==> p + 1 < s.len(),
    ensures
        sep_pos(s, i) == p,
    decreases p - i,
{
    if i < p {
        lemma_sep_pos_unique(s, i + 1, p);
    }
}

/// Decides one protocol line. Before login, only the four-field login
/// form with empty middle fields is accepted, and the user must be
/// named; after login, the three-field command form, with `;` appended
/// to the command.
pub fn parse_request(logged_in: bool, line: &str) -> (r: Request)
    ensures
        ({
            let fs = split_fields(line@, 0);
            if !logged_in {
                if !(fs.len() == 4 && fs[1].len() == 0 && fs[2].len() == 0) {
                    r is BadRequest
                } else if fs[0].len() == 0 {
                    r is UserMissing
                } else {
                    r is Login && (match r {
                        Request::Login(u) => u@ == fs[0],
                        _ => false,
                    })
                }
            } else {
                if fs.len() != 3 {
                    r is BadRequest
                } else {
                    (match r {
                        Request::Run { user, db, cmd } => {
                            &&& user@ == fs[0]
                            &&& db@ == fs[1]
                            &&& cmd@ == fs[2] + ";"@
                        },
                        _ => false,
                    })
                }
            }
        }),
{
    let mut fields = split_line(line);
    if !logged_in {
        if !(fields.len() == 4 && fields[1].as_str().unicode_len() == 0
            && fields[2].as_str().unicode_len() == 0) {
            return Request::BadRequest;
        }
        if fields[0].as_str().unicode_len() == 0 {
            return Request::UserMissing;
        }
        let u = fields.remove(0);
        return Request::Login(u);
    }
    if fields.len() != 3 {
        return Request::BadRequest;
    }
    let cmd = fields.remove(2).concat(";");
    let db = fields.remove(1);
    let user = fields.remove(0);
    Request::Run { user, db, cmd }
}

/// Registers the user on first contact: an unknown name is created, a
/// known one is accepted.
pub fn user_verify(base: &mut FileBase, name: &str) -> (r: Result<(), DiskError>)
    ensures
        r is Ok,
        (match spec_user_index(old(base).users@, name@) {
            Some(_) => *final(base) == *old(base),
            None => {
                &&& final(base).users@.len() == old(base).users@.len() + 1
                &&& final(base).users@.drop_last() == old(base).users@
                &&& final(base).users@.last().name@ == name@
            },
        }),
{
    match base.user_index(name) {
        Some(_) => Ok(()),
        None => {
            match DiskInterface::create_username(base, name) {
                Ok(_) => Ok(()),
                Err(_) => {
                    proof {
                        assert(false);
                    }
                    Ok(())
                },
            }
        },
    }
}

} // verus!
