//! A database: a named collection of tables with storage flags.

use vstd::prelude::*;
use crate::table::Table;
use crate::diskinterface::meta_equiv;

verus! {

/// The in-memory state of one database.
#[derive(Debug)]
pub struct Database {
    pub name: String,
    pub tables: Vec<Table>,
    pub is_dirty: bool,
    pub is_delete: bool,
}

#[derive(Debug)]
pub enum DatabaseError {
    CausedByFile(crate::diskinterface::DiskError),
}

impl DatabaseError {
    /// The message shown to clients for this error.
    pub fn message(&self) -> (r: String)
        ensures
            (match self {
                DatabaseError::CausedByFile(e) => r@ == "error caused by file: "@
                    + crate::diskinterface::spec_disk_err_text(*e),
            }),
    {
        match self {
            DatabaseError::CausedByFile(e) => String::from_str("error caused by file: ").concat(
                e.message().as_str(),
            ),
        }
    }
}

/// The first table with the given name.
pub open spec fn spec_table_index(tables: Seq<Table>, name: Seq<char>) -> Option<int>
    decreases tables.len(),
{
    if tables.len() == 0 {
        None
    } else if tables[0].name@ == name {
        Some(0int)
    } else {
        match spec_table_index(tables.skip(1), name) {
            Some(i) => Some(i + 1),
            None => None,
        }
    }
}

pub proof fn lemma_table_index_range(tables: Seq<Table>, name: Seq<char>)
    ensures
        match spec_table_index(tables, name) {
            Some(i) => 0 <= i < tables.len() && tables[i].name@ == name && (forall|k: int|
                0 <= k < i ==> tables[k].name@ != name),
            None => forall|k: int| 0 <= k < tables.len() ==> tables[k].name@ != name,
        },
    decreases tables.len(),
{
    if tables.len() > 0 && tables[0].name@ != name {
        lemma_table_index_range(tables.skip(1), name);
        match spec_table_index(tables.skip(1), name) {
            Some(i) => {
                assert(tables[i + 1] == tables.skip(1)[i]);
                assert forall|k: int| 0 <= k < i + 1 implies tables[k].name@ != name by {
                    if k > 0 {
                        assert(tables.skip(1)[k - 1].name@ != name);
                        assert(tables[k] == tables.skip(1)[k - 1]);
                    }
                }
            },
            None => {
                assert(forall|k: int|
                    1 <= k < tables.len() ==> tables[k].name@ == tables.skip(1)[k - 1].name@);
            },
        }
    }
}

/// Replacing the first table of a name keeps it first.
pub proof fn lemma_table_index_update(tables: Seq<Table>, name: Seq<char>, t: Table)
    requires
        spec_table_index(tables, name) is Some,
        t.name@ == name,
    ensures
        ({
            let i = spec_table_index(tables, name)->Some_0;
            spec_table_index(tables.update(i, t), name) == Some(i) && tables.update(i, t)[i] == t
        }),
    decreases tables.len(),
{
    lemma_table_index_range(tables, name);
    let i = spec_table_index(tables, name)->Some_0;
    let s2 = tables.update(i, t);
    if i == 0 {
        assert(s2[0] == t);
    } else {
        assert(s2[0] == tables[0]);
        assert(tables[0].name@ != name);
        assert(s2.skip(1) =~= tables.skip(1).update(i - 1, t));
        assert(spec_table_index(tables.skip(1), name) == Some(i - 1)) by {
            assert(spec_table_index(tables, name) == (match spec_table_index(
                tables.skip(1),
                name,
            ) {
                Some(k) => Some(k + 1),
                None => None::<int>,
            }));
        }
        lemma_table_index_update(tables.skip(1), name, t);
    }
}

/// A table pushed under a fresh name is found at the end.
pub proof fn lemma_table_index_push(tables: Seq<Table>, name: Seq<char>, t: Table)
    requires
        spec_table_index(tables, name) is None,
        t.name@ == name,
    ensures
        spec_table_index(tables.push(t), name) == Some(tables.len() as int),
        tables.push(t)[tables.len() as int] == t,
    decreases tables.len(),
{
    let s2 = tables.push(t);
    if tables.len() == 0 {
        assert(s2[0] == t);
    } else {
        assert(s2[0] == tables[0]);
        lemma_table_index_range(tables, name);
        assert(tables[0].name@ != name);
        assert(s2.skip(1) =~= tables.skip(1).push(t));
        lemma_table_index_push(tables.skip(1), name, t);
    }
}

impl Database {
    pub fn new(name: &str) -> (r: Database)
        ensures
            r.name@ == name@,
            r.tables@.len() == 0,
            r.is_dirty,
            !r.is_delete,
    {
        Database { name: name.to_owned(), tables: Vec::new(), is_dirty: true, is_delete: false }
    }

    /// The position of the named table, if present.
    pub fn table_index(&self, name: &str) -> (r: Option<usize>)
        ensures
            r is Some <==> spec_table_index(self.tables@, name@) is Some,
            r is Some ==> r->Some_0 as int == spec_table_index(self.tables@, name@)->Some_0
                && r->Some_0 < self.tables@.len(),
    {
        let n = self.tables.len();
        let mut i: usize = 0;
        proof {
            assert(self.tables@.skip(0) =~= self.tables@);
        }
        while i < n
            invariant
                n == self.tables@.len(),
                i <= n,
                (match spec_table_index(self.tables@, name@) {
                    Some(k) => match spec_table_index(self.tables@.skip(i as int), name@) {
                        Some(j) => k == j + i,
                        None => false,
                    },
                    None => spec_table_index(self.tables@.skip(i as int), name@) is None,
                }),
            decreases n - i,
        {
            proof {
                assert(self.tables@.skip(i as int)[0] == self.tables@[i as int]);
                assert(self.tables@.skip(i as int).skip(1) =~= self.tables@.skip(i + 1));
            }
            if crate::strutil::str_eq(self.tables[i].name.as_str(), name) {
                return Some(i);
            }
            i += 1;
        }
        proof {
            assert(self.tables@.skip(n as int).len() == 0);
        }
        None
    }

    /// Adds a table; one of the same name is replaced.
    pub fn insert_new_table(&mut self, table: Table)
        ensures
            final(self).name == old(self).name,
            final(self).is_dirty == old(self).is_dirty,
            final(self).is_delete == old(self).is_delete,
            (match spec_table_index(old(self).tables@, table.name@) {
                Some(i) => final(self).tables@ == old(self).tables@.update(i, table),
                None => final(self).tables@ == old(self).tables@.push(table),
            }),
    {
        proof {
            assert(self.tables@.skip(0) =~= self.tables@);
        }
        let n = self.tables.len();
        let mut i: usize = 0;
        while i < n
            invariant
                n == self.tables@.len(),
                i <= n,
                self == old(self),
                (match spec_table_index(self.tables@, table.name@) {
                    Some(k) => match spec_table_index(self.tables@.skip(i as int), table.name@) {
                        Some(j) => k == j + i,
                        None => false,
                    },
                    None => spec_table_index(self.tables@.skip(i as int), table.name@) is None,
                }),
            decreases n - i,
        {
            proof {
                assert(self.tables@.skip(i as int)[0] == self.tables@[i as int]);
                assert(self.tables@.skip(i as int).skip(1) =~= self.tables@.skip(i + 1));
            }
            if crate::strutil::str_eq(self.tables[i].name.as_str(), table.name.as_str()) {
                self.tables.set(i, table);
                return;
            }
            i += 1;
        }
        proof {
            assert(self.tables@.skip(n as int).len() == 0);
        }
        self.tables.push(table);
    }
}

impl Database {
    /// Loads a database's table schemas from storage; rows stay on
    /// disk. The loaded database and its tables are clean.
    #[verifier::loop_isolation(false)]
    pub fn load_db(
        base: &crate::diskinterface::FileBase,
        username: &str,
        db_name: &str,
    ) -> (r: Result<Database, DatabaseError>)
        ensures
            (match crate::diskinterface::spec_user_index(base.users@, username@) {
                None => r == Err::<Database, DatabaseError>(DatabaseError::CausedByFile(
                    crate::diskinterface::DiskError::UsernameNotExists,
                )),
                Some(ui) => match crate::diskinterface::spec_db_index(
                    base.users@[ui].dbs@,
                    db_name@,
                ) {
                    None => r == Err::<Database, DatabaseError>(DatabaseError::CausedByFile(
                        crate::diskinterface::DiskError::DbNotExists,
                    )),
                    Some(di) => {
                        let ts = base.users@[ui].dbs@[di].tables@;
                        &&& r is Ok
                        &&& r->Ok_0.name@ == db_name@
                        &&& !r->Ok_0.is_dirty
                        &&& !r->Ok_0.is_delete
                        &&& r->Ok_0.tables@.len() == ts.len()
                        &&& (forall|k: int| 0 <= k < ts.len() ==> {
                            let t = #[trigger] r->Ok_0.tables@[k];
                            &&& t.name@ == ts[k].meta.name@
                            &&& t.fields@ == ts[k].meta.attrs@
                            &&& t.primary_key.deep_view() == ts[k].meta.primary_key.deep_view()
                            &&& t.rows@.len() == 0
                            &&& !t.is_dirty
                            &&& !t.is_predicate_init
                            &&& t.row_set_wf()
                            &&& t.rows_keyed()
                        })
                    },
                },
            }),
    {
        let metas = match crate::diskinterface::DiskInterface::load_tables_meta(
            base,
            username,
            db_name,
        ) {
            Ok(ms) => ms,
            Err(e) => {
                return Err(DatabaseError::CausedByFile(e));
            },
        };
        let mut db = Database::new(db_name);
        db.is_dirty = false;
        let ghost ui = crate::diskinterface::spec_user_index(base.users@, username@)->Some_0;
        let ghost di = crate::diskinterface::spec_db_index(base.users@[ui].dbs@, db_name@)
            ->Some_0;
        let ghost ts = base.users@[ui].dbs@[di].tables@;
        let n = metas.len();
        let mut i: usize = 0;
        while i < n
            invariant
                i <= n,
                n == metas@.len(),
                n == ts.len(),
                forall|k: int| 0 <= k < n ==> crate::diskinterface::meta_equiv(
                    #[trigger] metas@[k],
                    ts[k].meta,
                ),
                db.name@ == db_name@,
                !db.is_dirty,
                !db.is_delete,
                db.tables@.len() == i,
                forall|k: int| 0 <= k < i ==> {
                    let t = #[trigger] db.tables@[k];
                    &&& t.name@ == ts[k].meta.name@
                    &&& t.fields@ == ts[k].meta.attrs@
                    &&& t.primary_key.deep_view() == ts[k].meta.primary_key.deep_view()
                    &&& t.rows@.len() == 0
                    &&& !t.is_dirty
                    &&& !t.is_predicate_init
                    &&& t.row_set_wf()
                    &&& t.rows_keyed()
                },
            decreases n - i,
        {
            let meta = metas[i].duplicate();
            let name = meta.name.clone();
            let mut table = Table::new(name.as_str());
            table.format_meta(meta);
            let ghost before = db.tables@;
            db.tables.push(table);
            proof {
                assert(db.tables@.drop_last() =~= before);
            }
            i += 1;
        }
        Ok(db)
    }
}

} // verus!
