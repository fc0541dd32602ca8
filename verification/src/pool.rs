//! The LRU session pool: a bounded cache of workers keyed by client
//! address, with a hierarchical flush to storage on eviction.

use vstd::prelude::*;
use crate::worker::{SQL, SQLError};
use crate::diskinterface::{DiskInterface, DiskError, FileBase, spec_user_index, spec_db_index,
    spec_tf_index};
use crate::table::{Table, Row};
use crate::strutil::str_eq;

verus! {

/// The pool: the recency list holds the cached addresses, most recent
/// first; the cache maps each address to its session.
#[derive(Debug)]
pub struct Pool {
    pub max_entry: usize,
    pub freelist: Vec<String>,
    pub cache: Vec<(String, SQL)>,
}

#[derive(Debug)]
pub enum PoolError {
    SQLError(SQLError),
    EntryNotExist,
    DiskError(DiskError),
}

/// The first cache entry for an address.
pub open spec fn spec_cache_index(cache: Seq<(String, SQL)>, addr: Seq<char>) -> Option<int>
    decreases cache.len(),
{
    if cache.len() == 0 {
        None
    } else if cache[0].0@ == addr {
        Some(0int)
    } else {
        match spec_cache_index(cache.skip(1), addr) {
            Some(i) => Some(i + 1),
            None => None,
        }
    }
}

pub proof fn lemma_cache_index(cache: Seq<(String, SQL)>, addr: Seq<char>)
    ensures
        match spec_cache_index(cache, addr) {
            Some(i) => 0 <= i < cache.len() && cache[i].0@ == addr,
            None => forall|k: int| 0 <= k < cache.len() ==> (#[trigger] cache[k]).0@ != addr,
        },
    decreases cache.len(),
{
    if cache.len() > 0 && cache[0].0@ != addr {
        lemma_cache_index(cache.skip(1), addr);
        match spec_cache_index(cache.skip(1), addr) {
            Some(i) => {
                assert(cache[i + 1] == cache.skip(1)[i]);
            },
            None => {
                assert(forall|k: int|
                    1 <= k < cache.len() ==> (#[trigger] cache[k]).0@ == cache.skip(1)[k
                        - 1].0@);
            },
        }
    }
}

/// Every cached session may be flushed.
pub open spec fn pool_flushable(p: Pool) -> bool {
    forall|k: int| 0 <= k < p.cache@.len() ==> flushable((#[trigger] p.cache@[k]).1)
}

/// Every stored catalog record describes a schema a session loaded
/// from it could flush again.
pub open spec fn metas_flushable(base: FileBase) -> bool {
    forall|u: int, d: int, t: int|
        0 <= u < base.users@.len() && 0 <= d < base.users@[u].dbs@.len() && 0 <= t
            < base.users@[u].dbs@[d].tables@.len() ==> {
            let m = (#[trigger] base.users@[u].dbs@[d].tables@[t]).meta;
            &&& (forall|i: int, j: int|
                0 <= i < j < m.attrs@.len() ==> (#[trigger] m.attrs@[i]).name@ != (
                #[trigger] m.attrs@[j]).name@)
            &&& (forall|q: int| 0 <= q < m.primary_key@.len() ==> crate::table::spec_field(
                m.attrs@,
                (#[trigger] m.primary_key@[q])@,
            ) is Some)
            &&& (forall|i: int, j: int|
                0 <= i < j < m.primary_key@.len() ==> m.primary_key@[i]@ != m.primary_key@[j]@)
            &&& m.attrs@.len() + m.primary_key@.len() <= 0xFFFF
        }
}

/// The rows still to be written out.
pub open spec fn dirty_rows(rows: Seq<Row>) -> Seq<Row>
    decreases rows.len(),
{
    if rows.len() == 0 {
        Seq::empty()
    } else if rows.last().is_dirty {
        dirty_rows(rows.drop_last()).push(rows.last())
    } else {
        dirty_rows(rows.drop_last())
    }
}

impl Pool {
    pub fn new(entry_number: usize) -> (r: Pool)
        ensures
            r.max_entry == entry_number,
            r.freelist@.len() == 0,
            r.cache@.len() == 0,
    {
        Pool { max_entry: entry_number, freelist: Vec::new(), cache: Vec::new() }
    }

    /// The position of an address in the cache, if present.
    pub fn cache_index(&self, addr: &str) -> (r: Option<usize>)
        ensures
            r is Some <==> spec_cache_index(self.cache@, addr@) is Some,
            r is Some ==> r->Some_0 as int == spec_cache_index(self.cache@, addr@)->Some_0
                && r->Some_0 < self.cache@.len(),
    {
        let n = self.cache.len();
        let mut i: usize = 0;
        proof {
            assert(self.cache@.skip(0) =~= self.cache@);
        }
        while i < n
            invariant
                n == self.cache@.len(),
                i <= n,
                (match spec_cache_index(self.cache@, addr@) {
                    Some(k) => match spec_cache_index(self.cache@.skip(i as int), addr@) {
                        Some(j) => k == j + i,
                        None => false,
                    },
                    None => spec_cache_index(self.cache@.skip(i as int), addr@) is None,
                }),
            decreases n - i,
        {
            proof {
                assert(self.cache@.skip(i as int)[0] == self.cache@[i as int]);
                assert(self.cache@.skip(i as int).skip(1) =~= self.cache@.skip(i + 1));
            }
            if str_eq(self.cache[i].0.as_str(), addr) {
                return Some(i);
            }
            i += 1;
        }
        proof {
            assert(self.cache@.skip(n as int).len() == 0);
        }
        None
    }

    /// Removes the first occurrence of an address from the recency
    /// list; an absent address leaves it unchanged.
    #[verifier::loop_isolation(false)]
    fn pop_from_freelist(&mut self, addr: &str)
        ensures
            final(self).max_entry == old(self).max_entry,
            final(self).cache == old(self).cache,
            (if exists|k: int|
                0 <= k < old(self).freelist@.len() && (#[trigger] old(self).freelist@[k])@
                    == addr@ {
                exists|k: int|
                    {
                        &&& 0 <= k < old(self).freelist@.len()
                        &&& (#[trigger] old(self).freelist@[k])@ == addr@
                        &&& final(self).freelist@ == old(self).freelist@.remove(k)
                    }
            } else {
                final(self).freelist@ == old(self).freelist@
            }),
    {
        let n = self.freelist.len();
        let mut i: usize = 0;
        while i < n
            invariant
                i <= n,
                n == self.freelist@.len(),
                self == old(self),
                forall|k: int| 0 <= k < i ==> (#[trigger] self.freelist@[k])@ != addr@,
            decreases n - i,
        {
            if str_eq(self.freelist[i].as_str(), addr) {
                self.freelist.remove(i);
                return;
            }
            i += 1;
        }
    }

    /// Writes one session's state back to storage and drops it from the
    /// pool; a missing entry is an error.
    pub fn write_back(&mut self, base: &mut FileBase, addr: &str) -> (r: Result<(), PoolError>)
        requires
            pool_flushable(*old(self)),
        ensures
            (match spec_cache_index(old(self).cache@, addr@) {
                None => {
                    &&& r is Err
                    &&& r->Err_0 is EntryNotExist
                    &&& final(self).cache == old(self).cache
                    &&& *final(base) == *old(base)
                },
                Some(ci) => {
                    &&& final(self).cache@ == old(self).cache@.remove(ci)
                    &&& final(self).max_entry == old(self).max_entry
                },
            }),
    {
        self.pop_from_freelist(addr);
        let ci = match self.cache_index(addr) {
            None => {
                return Err(PoolError::EntryNotExist);
            },
            Some(ci) => ci,
        };
        proof {
            assert(flushable(old(self).cache@[ci as int].1));
        }
        let (_, sql) = self.cache.remove(ci);
        match Self::hierarchic_check(base, &sql) {
            Ok(_) => Ok(()),
            Err(e) => Err(e),
        }
    }

    /// Inserts a session; a full pool first writes the least recently
    /// used session back.
    pub fn insert(&mut self, base: &mut FileBase, sql: SQL, addr: &str) -> (r: Result<
        (),
        PoolError,
    >)
        requires
            pool_flushable(*old(self)),
            flushable(sql),
        ensures
            r is Ok ==> {
                &&& final(self).cache@.len() >= 1
                &&& final(self).cache@.last().0@ == addr@
                &&& final(self).cache@.last().1 == sql
                &&& final(self).freelist@.len() >= 1
                &&& final(self).freelist@[0]@ == addr@
            },
    {
        if self.cache.len() >= self.max_entry {
            let victim = match self.freelist.pop() {
                Some(v) => v,
                None => {
                    return Err(PoolError::EntryNotExist);
                },
            };
            match self.write_back(base, victim.as_str()) {
                Ok(_) => {},
                Err(e) => {
                    return Err(e);
                },
            }
        }
        self.cache.push((addr.to_owned(), sql));
        self.freelist.insert(0, addr.to_owned());
        Ok(())
    }

    /// Fetches the session for an address, creating and loading one on
    /// a miss, and promotes it to most recently used. The session is
    /// found at the returned cache position.
    pub fn get(
        &mut self,
        base: &mut FileBase,
        username: &str,
        dbname: &str,
        addr: &str,
    ) -> (r: Result<usize, PoolError>)
        requires
            pool_flushable(*old(self)),
            metas_flushable(*old(base)),
        ensures
            (match r {
                Ok(ci) => {
                    &&& (ci as int) < final(self).cache@.len()
                    &&& final(self).cache@[ci as int].0@ == addr@
                    &&& final(self).freelist@.len() >= 1
                    &&& final(self).freelist@[0]@ == addr@
                },
                Err(_) => true,
            }),
    {
        if self.cache_index(addr).is_none() {
            let mut sql = match SQL::new(username) {
                Ok(s) => s,
                Err(e) => {
                    return Err(PoolError::SQLError(e));
                },
            };
            if !str_eq(dbname, "") {
                match sql.load_database(base, dbname) {
                    Ok(_) => {},
                    Err(e) => {
                        return Err(PoolError::SQLError(e));
                    },
                }
                proof {
                    crate::diskinterface::lemma_user_index(base.users@, sql.user.name@);
                    let ui = spec_user_index(base.users@, sql.user.name@)->Some_0;
                    crate::diskinterface::lemma_db_index(base.users@[ui].dbs@, dbname@);
                    let di = spec_db_index(base.users@[ui].dbs@, dbname@)->Some_0;
                    let ts = base.users@[ui].dbs@[di].tables@;
                    assert(0 <= ui < base.users@.len());
                    assert(0 <= di < base.users@[ui].dbs@.len());
                    assert forall|k: int|
                        0 <= k < sql.database.tables@.len() implies flushable_table(
                        #[trigger] sql.database.tables@[k],
                    ) by {
                        let t = sql.database.tables@[k];
                        let m = ts[k].meta;
                        assert(base.users@[ui].dbs@[di].tables@[k] == ts[k]);
                        assert(t.fields@ == m.attrs@);
                        assert(t.primary_key.deep_view() == m.primary_key.deep_view());
                        assert(t.primary_key.deep_view().len() == t.primary_key@.len());
                        assert(m.primary_key.deep_view().len() == m.primary_key@.len());
                        assert forall|q: int|
                            0 <= q < t.primary_key@.len() implies (
                        #[trigger] t.primary_key@[q])@ == m.primary_key@[q]@ by {
                            assert(t.primary_key.deep_view()[q] == t.primary_key@[q]@);
                            assert(m.primary_key.deep_view()[q] == m.primary_key@[q]@);
                        }
                        assert forall|q: int|
                            0 <= q < t.primary_key@.len() implies crate::table::spec_field(
                            t.fields@,
                            (#[trigger] t.primary_key@[q])@,
                        ) is Some by {
                            assert(crate::table::spec_field(m.attrs@, m.primary_key@[q]@)
                                is Some);
                        }
                    }
                }
            }
            match self.insert(base, sql, addr) {
                Ok(_) => {},
                Err(e) => {
                    return Err(e);
                },
            }
        } else {
            self.pop_from_freelist(addr);
            self.freelist.insert(0, addr.to_owned());
        }
        let r = self.cache_index(addr);
        proof {
            lemma_cache_index(self.cache@, addr@);
        }
        match r {
            Some(ci) => Ok(ci),
            None => Err(PoolError::EntryNotExist),
        }
    }

    /// The flush order of an evicted session: a deleted database is
    /// removed outright; a dirty one is first registered; then each
    /// table is dropped if deleted, registered if dirty, and its dirty
    /// rows are appended.
    #[verifier::loop_isolation(false)]
    pub fn hierarchic_check(base: &mut FileBase, sql: &SQL) -> (r: Result<(), PoolError>)
        requires
            flushable(*sql),
        ensures
            (if sql.database.is_delete {
                match spec_user_index(old(base).users@, sql.user.name@) {
                    None => {
                        &&& r is Err
                        &&& (r->Err_0 == PoolError::DiskError(DiskError::UsernameNotExists))
                        &&& *final(base) == *old(base)
                    },
                    Some(ui) => {
                        let u = old(base).users@[ui];
                        match spec_db_index(u.dbs@, sql.database.name@) {
                            None => {
                                &&& r is Err
                                &&& (r->Err_0 == PoolError::DiskError(DiskError::DbNotExists))
                                &&& *final(base) == *old(base)
                            },
                            Some(di) => {
                                &&& r is Ok
                                &&& final(base).users@ == old(base).users@.update(
                                    ui,
                                    final(base).users@[ui],
                                )
                                &&& final(base).users@[ui].name == u.name
                                &&& final(base).users@[ui].dbs@ == u.dbs@.remove(di)
                            },
                        }
                    },
                }
            } else if sql.database.is_dirty && spec_user_index(old(base).users@, sql.user.name@)
                is None {
                &&& r is Err
                &&& (r->Err_0 == PoolError::DiskError(DiskError::UsernameNotExists))
                &&& *final(base) == *old(base)
            } else if sql.database.is_dirty && (match spec_user_index(
                old(base).users@,
                sql.user.name@,
            ) {
                Some(ui) => spec_db_index(old(base).users@[ui].dbs@, sql.database.name@)
                    is Some,
                None => false,
            }) {
                &&& r is Err
                &&& (r->Err_0 == PoolError::DiskError(DiskError::DbExists))
                &&& *final(base) == *old(base)
            } else {
                r is Err ==> r->Err_0 is DiskError
            }),
    {
        if sql.database.is_delete {
            match DiskInterface::remove_db(base, sql.user.name.as_str(),
                sql.database.name.as_str()) {
                Ok(_) => {
                    return Ok(());
                },
                Err(e) => {
                    return Err(PoolError::DiskError(e));
                },
            }
        }
        if sql.database.is_dirty {
            match DiskInterface::create_db(base, sql.user.name.as_str(),
                sql.database.name.as_str()) {
                Ok(_) => {},
                Err(e) => {
                    return Err(PoolError::DiskError(e));
                },
            }
        }
        let nt = sql.database.tables.len();
        let mut k: usize = 0;
        while k < nt
            invariant
                k <= nt,
                nt == sql.database.tables@.len(),
                flushable(*sql),
            decreases nt - k,
        {
            let t = &sql.database.tables[k];
            if t.is_delete {
                match DiskInterface::drop_table(base, sql.user.name.as_str(),
                    sql.database.name.as_str(), t.name.as_str()) {
                    Ok(_) => {},
                    Err(e) => {
                        return Err(PoolError::DiskError(e));
                    },
                }
            } else {
                if t.is_dirty {
                    match DiskInterface::create_table(base, sql.user.name.as_str(),
                        sql.database.name.as_str(), t) {
                        Ok(_) => {},
                        Err(e) => {
                            return Err(PoolError::DiskError(e));
                        },
                    }
                }
                // collect the rows still to be written out
                let mut new_rows: Vec<Row> = Vec::new();
                let nr = t.rows.len();
                let mut j: usize = 0;
                proof {
                    assert(new_rows@ =~= dirty_rows(t.rows@.take(0)));
                }
                while j < nr
                    invariant
                        j <= nr,
                        nr == t.rows@.len(),
                        flushable(*sql),
                        k < nt == sql.database.tables@.len(),
                        t == &sql.database.tables@[k as int],
                        crate::table::rows_equiv(new_rows@, dirty_rows(t.rows@.take(j as int))),
                    decreases nr - j,
                {
                    proof {
                        assert(t.rows@.take(j + 1).drop_last() =~= t.rows@.take(j as int));
                        assert(t.rows@.take(j + 1).last() == t.rows@[j as int]);
                    }
                    if t.rows[j].is_dirty {
                        new_rows.push(t.rows[j].duplicate());
                        proof {
                            assert(new_rows@.drop_last() =~= new_rows@.take(
                                new_rows@.len() - 1,
                            ));
                            assert(dirty_rows(t.rows@.take(j + 1)) == dirty_rows(
                                t.rows@.take(j as int),
                            ).push(t.rows@[j as int]));
                        }
                    }
                    j += 1;
                }
                if new_rows.len() > 0 {
                    proof {
                        lemma_dirty_rows_keyed(t.rows@.take(nr as int));
                        assert(t.rows@.take(nr as int) =~= t.rows@);
                        assert forall|q: int|
                            0 <= q < new_rows@.len() implies (
                        #[trigger] new_rows@[q]).keys_unique() by {
                            assert(new_rows@[q].data@ == dirty_rows(t.rows@.take(
                                nr as int,
                            ))[q].data@);
                            assert(dirty_rows(t.rows@.take(nr as int))[q].keys_unique());
                        }
                    }
                    match DiskInterface::append_rows(base, sql.user.name.as_str(),
                        sql.database.name.as_str(), t.name.as_str(), &new_rows) {
                        Ok(_) => {},
                        Err(e) => {
                            return Err(PoolError::DiskError(e));
                        },
                    }
                }
            }
            k += 1;
        }
        Ok(())
    }
}

/// What a session must satisfy for its state to be writable: schemas
/// are well formed, primary keys name distinct existing fields, and
/// every row has unique keys.
pub open spec fn flushable_table(t: Table) -> bool {
    &&& t.fields_wf()
    &&& t.rows_keyed()
    &&& (forall|q: int| 0 <= q < t.primary_key@.len() ==> crate::table::spec_field(
        t.fields@,
        (#[trigger] t.primary_key@[q])@,
    ) is Some)
    &&& (forall|i: int, j: int|
        0 <= i < j < t.primary_key@.len() ==> t.primary_key@[i]@ != t.primary_key@[j]@)
    &&& t.fields@.len() + t.primary_key@.len() <= 0xFFFF
}

pub open spec fn flushable(sql: SQL) -> bool {
    forall|k: int| 0 <= k < sql.database.tables@.len() ==> flushable_table(
        #[trigger] sql.database.tables@[k],
    )
}

/// Dirty rows keep their unique keys.
proof fn lemma_dirty_rows_keyed(rows: Seq<Row>)
    requires
        forall|k: int| 0 <= k < rows.len() ==> (#[trigger] rows[k]).keys_unique(),
    ensures
        forall|q: int| 0 <= q < dirty_rows(rows).len() ==> (
        #[trigger] dirty_rows(rows)[q]).keys_unique(),
    decreases rows.len(),
{
    if rows.len() > 0 {
        assert(forall|k: int|
            0 <= k < rows.drop_last().len() ==> (#[trigger] rows.drop_last()[k]).keys_unique());
        lemma_dirty_rows_keyed(rows.drop_last());
        if rows.last().is_dirty {
            assert(forall|q: int|
                0 <= q < dirty_rows(rows).len() - 1 ==> dirty_rows(rows)[q] == dirty_rows(
                    rows.drop_last(),
                )[q]);
        }
    }
}

} // verus!
