//! The storage interface: catalog records, the on-disk namespace held
//! as a value, and byte-level row file operations.

use vstd::prelude::*;
use crate::datatype::DataType;
use crate::field::Field;
use crate::table::spec_field;

verus! {

/// Marker type for the storage interface operations.
#[derive(Debug)]
pub struct DiskInterface {}

/// Shape of `usernames.json`.
#[derive(Debug)]
pub struct UsernamesJson {
    pub usernames: Vec<UsernameInfo>,
}

#[derive(Debug)]
pub struct UsernameInfo {
    pub name: String,
    pub path: String,
}

/// Shape of `dbs.json`.
#[derive(Debug)]
pub struct DbsJson {
    pub dbs: Vec<DbInfo>,
}

#[derive(Debug)]
pub struct DbInfo {
    pub name: String,
    pub path: String,
}

/// Shape of `tables.json`.
#[derive(Debug)]
pub struct TablesJson {
    pub tables: Vec<TableMeta>,
}

/// The persisted description of a table: schema and byte layout.
#[derive(Debug)]
pub struct TableMeta {
    pub name: String,
    pub username: String,
    pub db_name: String,
    pub path_tsv: String,
    pub path_bin: String,
    pub primary_key: Vec<String>,
    pub foreign_key: Vec<String>,
    pub reference_table: Option<String>,
    pub reference_attr: Option<String>,
    pub row_length: u32,
    pub attrs: Vec<Field>,
    pub attrs_order: Vec<String>,
    pub attr_offset_ranges: Vec<Vec<u32>>,
}

#[derive(Debug, Clone, Copy, PartialEq, Eq, Structural)]
pub enum DiskError {
    Io,
    BaseDirExists,
    BaseDirNotExists,
    UsernamesJsonNotExists,
    UsernameExists,
    UsernameNotExists,
    UsernameDirNotExists,
    DbsJsonNotExists,
    DbExists,
    DbNotExists,
    DbDirNotExists,
    TablesJsonNotExists,
    TableExists,
    TableNotExists,
    TableBinNotExists,
    TableTsvNotExists,
    TableIdxFileNotExists,
    JsonParse,
    RangeContainsDeletedRecord,
    RangeExceedLatestRecord,
    RangeAndNumRowsMismatch,
    AttrNotExists,
    DuplicatedKey,
    BytesError,
}

impl TableMeta {
    /// A consistent byte layout: the liveness byte first, then each
    /// attribute at its contiguous range of the declared width.
    pub open spec fn wf(&self) -> bool {
        &&& self.attrs_order@.len() >= 1
        &&& self.attr_offset_ranges@.len() == self.attrs_order@.len()
        &&& self.attrs_order@[0]@ == "__valid__"@
        &&& (forall|i: int, j: int|
            0 <= i < j < self.attrs@.len() ==> self.attrs@[i].name@ != self.attrs@[j].name@)
        &&& (forall|i: int|
            0 <= i < self.attr_offset_ranges@.len()
                ==> (#[trigger] self.attr_offset_ranges@[i])@.len() == 2)
        &&& self.attr_offset_ranges@[0]@[0] == 0
        &&& self.attr_offset_ranges@[0]@[1] == 1
        &&& (forall|i: int|
            1 <= i < self.attr_offset_ranges@.len()
                ==> (#[trigger] self.attr_offset_ranges@[i])@[0]
                == self.attr_offset_ranges@[i - 1]@[1])
        &&& (forall|i: int|
            1 <= i < self.attrs_order@.len() ==> spec_field(
                self.attrs@,
                (#[trigger] self.attrs_order@[i])@,
            ) is Some)
        &&& (forall|i: int|
            1 <= i < self.attrs_order@.len()
                ==> (#[trigger] self.attr_offset_ranges@[i])@[1]
                == self.attr_offset_ranges@[i]@[0] + spec_field(
                self.attrs@,
                self.attrs_order@[i]@,
            )->Some_0.datatype.spec_size())
        &&& self.row_length == self.attr_offset_ranges@[self.attr_offset_ranges@.len() - 1]@[1]
        &&& self.row_length >= 1
    }

    /// The byte width an attribute occupies.
    pub fn get_datatype_size_of(datatype: &DataType) -> (r: u32)
        ensures
            r == datatype.spec_size(),
    {
        match datatype {
            DataType::Char(length) => *length as u32,
            DataType::Double => 8,
            DataType::Float => 4,
            DataType::Int => 4,
            DataType::Varchar(length) => *length as u32,
        }
    }
}

impl DiskInterface {
    /// The byte width an attribute of this type occupies in a record.
    pub fn get_datatype_size(datatype: &DataType) -> (r: u32)
        ensures
            r == datatype.spec_size(),
    {
        TableMeta::get_datatype_size_of(datatype)
    }
}

/// One table's persisted state: its catalog record and its row file.
#[derive(Debug)]
pub struct TableFile {
    pub meta: TableMeta,
    pub bin: Vec<u8>,
    pub idx: Vec<u8>,
}

/// One database's directory.
#[derive(Debug)]
pub struct DbDir {
    pub name: String,
    pub tables: Vec<TableFile>,
}

/// One user's directory.
#[derive(Debug)]
pub struct UserDir {
    pub name: String,
    pub dbs: Vec<DbDir>,
}

/// The whole on-disk namespace, held as a value: users, their
/// databases, and each table's catalog record and row bytes.
#[derive(Debug)]
pub struct FileBase {
    pub users: Vec<UserDir>,
}

pub open spec fn spec_user_index(users: Seq<UserDir>, name: Seq<char>) -> Option<int>
    decreases users.len(),
{
    if users.len() == 0 {
        None
    } else if users[0].name@ == name {
        Some(0int)
    } else {
        match spec_user_index(users.skip(1), name) {
            Some(i) => Some(i + 1),
            None => None,
        }
    }
}

pub open spec fn spec_db_index(dbs: Seq<DbDir>, name: Seq<char>) -> Option<int>
    decreases dbs.len(),
{
    if dbs.len() == 0 {
        None
    } else if dbs[0].name@ == name {
        Some(0int)
    } else {
        match spec_db_index(dbs.skip(1), name) {
            Some(i) => Some(i + 1),
            None => None,
        }
    }
}

pub open spec fn spec_tf_index(tables: Seq<TableFile>, name: Seq<char>) -> Option<int>
    decreases tables.len(),
{
    if tables.len() == 0 {
        None
    } else if tables[0].meta.name@ == name {
        Some(0int)
    } else {
        match spec_tf_index(tables.skip(1), name) {
            Some(i) => Some(i + 1),
            None => None,
        }
    }
}

pub proof fn lemma_user_index(users: Seq<UserDir>, name: Seq<char>)
    ensures
        match spec_user_index(users, name) {
            Some(i) => 0 <= i < users.len() && users[i].name@ == name,
            None => forall|k: int| 0 <= k < users.len() ==> users[k].name@ != name,
        },
    decreases users.len(),
{
    if users.len() > 0 && users[0].name@ != name {
        lemma_user_index(users.skip(1), name);
        match spec_user_index(users.skip(1), name) {
            Some(i) => {
                assert(users[i + 1] == users.skip(1)[i]);
            },
            None => {
                assert(forall|k: int|
                    1 <= k < users.len() ==> users[k].name@ == users.skip(1)[k - 1].name@);
            },
        }
    }
}

pub proof fn lemma_db_index(dbs: Seq<DbDir>, name: Seq<char>)
    ensures
        match spec_db_index(dbs, name) {
            Some(i) => 0 <= i < dbs.len() && dbs[i].name@ == name,
            None => forall|k: int| 0 <= k < dbs.len() ==> dbs[k].name@ != name,
        },
    decreases dbs.len(),
{
    if dbs.len() > 0 && dbs[0].name@ != name {
        lemma_db_index(dbs.skip(1), name);
        match spec_db_index(dbs.skip(1), name) {
            Some(i) => {
                assert(dbs[i + 1] == dbs.skip(1)[i]);
            },
            None => {
                assert(forall|k: int|
                    1 <= k < dbs.len() ==> dbs[k].name@ == dbs.skip(1)[k - 1].name@);
            },
        }
    }
}

pub proof fn lemma_tf_index(tables: Seq<TableFile>, name: Seq<char>)
    ensures
        match spec_tf_index(tables, name) {
            Some(i) => 0 <= i < tables.len() && tables[i].meta.name@ == name,
            None => forall|k: int| 0 <= k < tables.len() ==> tables[k].meta.name@ != name,
        },
    decreases tables.len(),
{
    if tables.len() > 0 && tables[0].meta.name@ != name {
        lemma_tf_index(tables.skip(1), name);
        match spec_tf_index(tables.skip(1), name) {
            Some(i) => {
                assert(tables[i + 1] == tables.skip(1)[i]);
            },
            None => {
                assert(forall|k: int|
                    1 <= k < tables.len() ==> tables[k].meta.name@ == tables.skip(1)[k
                        - 1].meta.name@);
            },
        }
    }
}

impl FileBase {
    pub fn user_index(&self, name: &str) -> (r: Option<usize>)
        ensures
            r is Some <==> spec_user_index(self.users@, name@) is Some,
            r is Some ==> r->Some_0 as int == spec_user_index(self.users@, name@)->Some_0
                && r->Some_0 < self.users@.len(),
    {
        let n = self.users.len();
        let mut i: usize = 0;
        proof {
            assert(self.users@.skip(0) =~= self.users@);
        }
        while i < n
            invariant
                n == self.users@.len(),
                i <= n,
                (match spec_user_index(self.users@, name@) {
                    Some(k) => match spec_user_index(self.users@.skip(i as int), name@) {
                        Some(j) => k == j + i,
                        None => false,
                    },
                    None => spec_user_index(self.users@.skip(i as int), name@) is None,
                }),
            decreases n - i,
        {
            proof {
                assert(self.users@.skip(i as int)[0] == self.users@[i as int]);
                assert(self.users@.skip(i as int).skip(1) =~= self.users@.skip(i + 1));
            }
            if crate::strutil::str_eq(self.users[i].name.as_str(), name) {
                return Some(i);
            }
            i += 1;
        }
        proof {
            assert(self.users@.skip(n as int).len() == 0);
        }
        None
    }
}

impl UserDir {
    pub fn db_index(&self, name: &str) -> (r: Option<usize>)
        ensures
            r is Some <==> spec_db_index(self.dbs@, name@) is Some,
            r is Some ==> r->Some_0 as int == spec_db_index(self.dbs@, name@)->Some_0
                && r->Some_0 < self.dbs@.len(),
    {
        let n = self.dbs.len();
        let mut i: usize = 0;
        proof {
            assert(self.dbs@.skip(0) =~= self.dbs@);
        }
        while i < n
            invariant
                n == self.dbs@.len(),
                i <= n,
                (match spec_db_index(self.dbs@, name@) {
                    Some(k) => match spec_db_index(self.dbs@.skip(i as int), name@) {
                        Some(j) => k == j + i,
                        None => false,
                    },
                    None => spec_db_index(self.dbs@.skip(i as int), name@) is None,
                }),
            decreases n - i,
        {
            proof {
                assert(self.dbs@.skip(i as int)[0] == self.dbs@[i as int]);
                assert(self.dbs@.skip(i as int).skip(1) =~= self.dbs@.skip(i + 1));
            }
            if crate::strutil::str_eq(self.dbs[i].name.as_str(), name) {
                return Some(i);
            }
            i += 1;
        }
        proof {
            assert(self.dbs@.skip(n as int).len() == 0);
        }
        None
    }
}

impl DbDir {
    pub fn table_file_index(&self, name: &str) -> (r: Option<usize>)
        ensures
            r is Some <==> spec_tf_index(self.tables@, name@) is Some,
            r is Some ==> r->Some_0 as int == spec_tf_index(self.tables@, name@)->Some_0
                && r->Some_0 < self.tables@.len(),
    {
        let n = self.tables.len();
        let mut i: usize = 0;
        proof {
            assert(self.tables@.skip(0) =~= self.tables@);
        }
        while i < n
            invariant
                n == self.tables@.len(),
                i <= n,
                (match spec_tf_index(self.tables@, name@) {
                    Some(k) => match spec_tf_index(self.tables@.skip(i as int), name@) {
                        Some(j) => k == j + i,
                        None => false,
                    },
                    None => spec_tf_index(self.tables@.skip(i as int), name@) is None,
                }),
            decreases n - i,
        {
            proof {
                assert(self.tables@.skip(i as int)[0] == self.tables@[i as int]);
                assert(self.tables@.skip(i as int).skip(1) =~= self.tables@.skip(i + 1));
            }
            if crate::strutil::str_eq(self.tables[i].meta.name.as_str(), name) {
                return Some(i);
            }
            i += 1;
        }
        proof {
            assert(self.tables@.skip(n as int).len() == 0);
        }
        None
    }
}

/// The encodings of a sequence of rows, concatenated.
pub open spec fn spec_encode_rows(
    meta: TableMeta,
    maps: Seq<Map<Seq<char>, Seq<char>>>,
) -> Result<Seq<u8>, DiskError>
    decreases maps.len(),
{
    if maps.len() == 0 {
        Ok(Seq::empty())
    } else {
        match crate::bytescoder::spec_row_to_bytes(meta, maps[0]) {
            Err(_) => Err(DiskError::BytesError),
            Ok(b) => match spec_encode_rows(meta, maps.skip(1)) {
                Err(e) => Err(e),
                Ok(rest) => Ok(b + rest),
            },
        }
    }
}

/// The bytes of record `i` in a row file of fixed record length `rl`.
pub open spec fn spec_record(bin: Seq<u8>, rl: int, i: int) -> Seq<u8> {
    bin.subrange(i * rl, (i + 1) * rl)
}

impl DiskInterface {
    /// A fresh, empty storage base.
    pub fn create_file_base() -> (r: FileBase)
        ensures
            r.users@.len() == 0,
    {
        FileBase { users: Vec::new() }
    }

    /// Registers a user; a second registration of the name fails.
    pub fn create_username(base: &mut FileBase, username: &str) -> (r: Result<(), DiskError>)
        ensures
            (match spec_user_index(old(base).users@, username@) {
                Some(_) => {
                    &&& r == Err::<(), DiskError>(DiskError::UsernameExists)
                    &&& *final(base) == *old(base)
                },
                None => {
                    &&& r is Ok
                    &&& final(base).users@.len() == old(base).users@.len() + 1
                    &&& final(base).users@.drop_last() == old(base).users@
                    &&& final(base).users@.last().name@ == username@
                    &&& final(base).users@.last().dbs@.len() == 0
                },
            }),
    {
        match base.user_index(username) {
            Some(_) => Err(DiskError::UsernameExists),
            None => {
                let ghost before = base.users@;
                base.users.push(UserDir { name: username.to_owned(), dbs: Vec::new() });
                proof {
                    assert(base.users@.drop_last() =~= before);
                }
                Ok(())
            },
        }
    }

    /// The registered user names, in registration order.
    pub fn get_usernames(base: &FileBase) -> (r: Result<Vec<String>, DiskError>)
        ensures
            r is Ok,
            r->Ok_0.deep_view() == base.users@.map(|i: int, u: UserDir| u.name@),
    {
        let n = base.users.len();
        let mut out: Vec<String> = Vec::new();
        let mut i: usize = 0;
        while i < n
            invariant
                n == base.users@.len(),
                i <= n,
                out.deep_view() =~= base.users@.map(|k: int, u: UserDir| u.name@).take(i as int),
            decreases n - i,
        {
            let ghost before = out.deep_view();
            out.push(base.users[i].name.clone());
            proof {
                assert(out.deep_view() =~= before.push(base.users@[i as int].name@));
                assert(out.deep_view() =~= base.users@.map(|k: int, u: UserDir| u.name@).take(
                    i + 1,
                ));
            }
            i += 1;
        }
        proof {
            assert(base.users@.map(|k: int, u: UserDir| u.name@).take(n as int)
                =~= base.users@.map(|k: int, u: UserDir| u.name@));
        }
        Ok(out)
    }

    /// Removes a user and everything under it.
    pub fn remove_username(base: &mut FileBase, username: &str) -> (r: Result<(), DiskError>)
        ensures
            (match spec_user_index(old(base).users@, username@) {
                None => {
                    &&& r == Err::<(), DiskError>(DiskError::UsernameNotExists)
                    &&& *final(base) == *old(base)
                },
                Some(i) => {
                    &&& r is Ok
                    &&& final(base).users@ == old(base).users@.remove(i)
                },
            }),
    {
        match base.user_index(username) {
            None => Err(DiskError::UsernameNotExists),
            Some(i) => {
                base.users.remove(i);
                Ok(())
            },
        }
    }

    /// Creates a database under a user.
    pub fn create_db(base: &mut FileBase, username: &str, db_name: &str) -> (r: Result<
        (),
        DiskError,
    >)
        ensures
            (match spec_user_index(old(base).users@, username@) {
                None => {
                    &&& r == Err::<(), DiskError>(DiskError::UsernameNotExists)
                    &&& *final(base) == *old(base)
                },
                Some(ui) => {
                    let u = old(base).users@[ui];
                    match spec_db_index(u.dbs@, db_name@) {
                        Some(_) => {
                            &&& r == Err::<(), DiskError>(DiskError::DbExists)
                            &&& *final(base) == *old(base)
                        },
                        None => {
                            &&& r is Ok
                            &&& final(base).users@.len() == old(base).users@.len()
                            &&& final(base).users@ == old(base).users@.update(
                                ui,
                                final(base).users@[ui],
                            )
                            &&& final(base).users@[ui].name == u.name
                            &&& final(base).users@[ui].dbs@.len() == u.dbs@.len() + 1
                            &&& final(base).users@[ui].dbs@.drop_last() == u.dbs@
                            &&& final(base).users@[ui].dbs@.last().name@ == db_name@
                            &&& final(base).users@[ui].dbs@.last().tables@.len() == 0
                        },
                    }
                },
            }),
    {
        let ui = match base.user_index(username) {
            None => {
                return Err(DiskError::UsernameNotExists);
            },
            Some(ui) => ui,
        };
        if base.users[ui].db_index(db_name).is_some() {
            return Err(DiskError::DbExists);
        }
        let mut u = base.users.remove(ui);
        let ghost before_dbs = u.dbs@;
        u.dbs.push(DbDir { name: db_name.to_owned(), tables: Vec::new() });
        proof {
            assert(u.dbs@.drop_last() =~= before_dbs);
        }
        base.users.insert(ui, u);
        proof {
            assert(base.users@ =~= old(base).users@.update(ui as int, base.users@[ui as int]));
        }
        Ok(())
    }

    /// The databases of a user, in creation order.
    pub fn get_dbs(base: &FileBase, username: &str) -> (r: Result<Vec<String>, DiskError>)
        ensures
            (match spec_user_index(base.users@, username@) {
                None => r == Err::<Vec<String>, DiskError>(DiskError::UsernameNotExists),
                Some(ui) => r is Ok && r->Ok_0.deep_view() == base.users@[ui].dbs@.map(
                    |i: int, d: DbDir| d.name@,
                ),
            }),
    {
        let ui = match base.user_index(username) {
            None => {
                return Err(DiskError::UsernameNotExists);
            },
            Some(ui) => ui,
        };
        let u = &base.users[ui];
        let n = u.dbs.len();
        let mut out: Vec<String> = Vec::new();
        let mut i: usize = 0;
        while i < n
            invariant
                n == u.dbs@.len(),
                i <= n,
                out.deep_view() =~= u.dbs@.map(|k: int, d: DbDir| d.name@).take(i as int),
            decreases n - i,
        {
            let ghost before = out.deep_view();
            out.push(u.dbs[i].name.clone());
            proof {
                assert(out.deep_view() =~= before.push(u.dbs@[i as int].name@));
                assert(out.deep_view() =~= u.dbs@.map(|k: int, d: DbDir| d.name@).take(i + 1));
            }
            i += 1;
        }
        proof {
            assert(u.dbs@.map(|k: int, d: DbDir| d.name@).take(n as int) =~= u.dbs@.map(
                |k: int, d: DbDir| d.name@,
            ));
        }
        Ok(out)
    }

    /// Removes a database and its tables.
    pub fn remove_db(base: &mut FileBase, username: &str, db_name: &str) -> (r: Result<
        (),
        DiskError,
    >)
        ensures
            (match spec_user_index(old(base).users@, username@) {
                None => {
                    &&& r == Err::<(), DiskError>(DiskError::UsernameNotExists)
                    &&& *final(base) == *old(base)
                },
                Some(ui) => {
                    let u = old(base).users@[ui];
                    match spec_db_index(u.dbs@, db_name@) {
                        None => {
                            &&& r == Err::<(), DiskError>(DiskError::DbNotExists)
                            &&& *final(base) == *old(base)
                        },
                        Some(di) => {
                            &&& r is Ok
                            &&& final(base).users@ == old(base).users@.update(
                                ui,
                                final(base).users@[ui],
                            )
                            &&& final(base).users@[ui].name == u.name
                            &&& final(base).users@[ui].dbs@ == u.dbs@.remove(di)
                        },
                    }
                },
            }),
    {
        let ui = match base.user_index(username) {
            None => {
                return Err(DiskError::UsernameNotExists);
            },
            Some(ui) => ui,
        };
        let di = match base.users[ui].db_index(db_name) {
            None => {
                return Err(DiskError::DbNotExists);
            },
            Some(di) => di,
        };
        let mut u = base.users.remove(ui);
        u.dbs.remove(di);
        base.users.insert(ui, u);
        proof {
            assert(base.users@ =~= old(base).users@.update(ui as int, base.users@[ui as int]));
        }
        Ok(())
    }

    /// The hierarchy check: the user, then its database, then the table
    /// must exist, each missing level reported with its own error.
    pub fn storage_hierarchy_check(
        base: &FileBase,
        username: Option<&str>,
        db_name: Option<&str>,
        table_name: Option<&str>,
    ) -> (r: Result<(), DiskError>)
        ensures
            (match username {
                None => r is Ok,
                Some(un) => match spec_user_index(base.users@, un@) {
                    None => r == Err::<(), DiskError>(DiskError::UsernameNotExists),
                    Some(ui) => match db_name {
                        None => r is Ok,
                        Some(dn) => match spec_db_index(base.users@[ui].dbs@, dn@) {
                            None => r == Err::<(), DiskError>(DiskError::DbNotExists),
                            Some(di) => match table_name {
                                None => r is Ok,
                                Some(tn) => {
                                    if spec_tf_index(
                                        base.users@[ui].dbs@[di].tables@,
                                        tn@,
                                    ) is Some {
                                        r is Ok
                                    } else {
                                        r == Err::<(), DiskError>(DiskError::TableNotExists)
                                    }
                                },
                            },
                        },
                    },
                },
            }),
    {
        let un = match username {
            None => {
                return Ok(());
            },
            Some(un) => un,
        };
        let ui = match base.user_index(un) {
            None => {
                return Err(DiskError::UsernameNotExists);
            },
            Some(ui) => ui,
        };
        let dn = match db_name {
            None => {
                return Ok(());
            },
            Some(dn) => dn,
        };
        let di = match base.users[ui].db_index(dn) {
            None => {
                return Err(DiskError::DbNotExists);
            },
            Some(di) => di,
        };
        let tn = match table_name {
            None => {
                return Ok(());
            },
            Some(tn) => tn,
        };
        match base.users[ui].dbs[di].table_file_index(tn) {
            None => Err(DiskError::TableNotExists),
            Some(_) => Ok(()),
        }
    }
}

/// The location of a table under its user and database, when the whole
/// chain exists.
pub open spec fn spec_locate(base: FileBase, un: Seq<char>, dn: Seq<char>, tn: Seq<char>) -> Option<
    (int, int, int),
> {
    match spec_user_index(base.users@, un) {
        None => None,
        Some(ui) => match spec_db_index(base.users@[ui].dbs@, dn) {
            None => None,
            Some(di) => match spec_tf_index(base.users@[ui].dbs@[di].tables@, tn) {
                None => None,
                Some(ti) => Some((ui, di, ti)),
            },
        },
    }
}

/// The error the hierarchy check gives when the chain is broken.
pub open spec fn spec_locate_err(base: FileBase, un: Seq<char>, dn: Seq<char>, tn: Seq<char>) -> DiskError {
    match spec_user_index(base.users@, un) {
        None => DiskError::UsernameNotExists,
        Some(ui) => match spec_db_index(base.users@[ui].dbs@, dn) {
            None => DiskError::DbNotExists,
            Some(_) => DiskError::TableNotExists,
        },
    }
}

/// All records in `[lo, hi)` fit in the file and are live.
pub open spec fn range_live(bin: Seq<u8>, rl: int, lo: int, hi: int) -> bool {
    &&& hi * rl <= bin.len()
    &&& forall|i: int| lo <= i < hi ==> bin[#[trigger] (i * rl)] == 1
}

impl DiskInterface {
    /// Finds a table's position under its user and database.
    pub fn locate_for<'a>(base: &'a FileBase, username: &str, db_name: &str, table_name: &str) -> (r:
        Result<(usize, usize, usize), DiskError>)
        ensures
            (match spec_locate(*base, username@, db_name@, table_name@) {
                Some((ui, di, ti)) => r is Ok && r->Ok_0.0 == ui && r->Ok_0.1 == di && r->Ok_0.2
                    == ti && ui < base.users@.len() && di < base.users@[ui].dbs@.len() && ti
                    < base.users@[ui].dbs@[di].tables@.len(),
                None => r == Err::<(usize, usize, usize), DiskError>(spec_locate_err(
                    *base,
                    username@,
                    db_name@,
                    table_name@,
                )),
            }),
    {
        let ui = match base.user_index(username) {
            None => {
                return Err(DiskError::UsernameNotExists);
            },
            Some(ui) => ui,
        };
        let di = match base.users[ui].db_index(db_name) {
            None => {
                return Err(DiskError::DbNotExists);
            },
            Some(di) => di,
        };
        let ti = match base.users[ui].dbs[di].table_file_index(table_name) {
            None => {
                return Err(DiskError::TableNotExists);
            },
            Some(ti) => ti,
        };
        Ok((ui, di, ti))
    }

    /// Appends rows to a table's row file, each encoded to one record.
    #[verifier::loop_isolation(false)]
    pub fn append_rows(
        base: &mut FileBase,
        username: &str,
        db_name: &str,
        table_name: &str,
        rows: &Vec<crate::table::Row>,
    ) -> (r: Result<(), DiskError>)
        requires
            forall|i: int| 0 <= i < rows@.len() ==> (#[trigger] rows@[i]).keys_unique(),
        ensures
            (match spec_locate(*old(base), username@, db_name@, table_name@) {
                None => {
                    &&& r == Err::<(), DiskError>(spec_locate_err(
                        *old(base),
                        username@,
                        db_name@,
                        table_name@,
                    ))
                    &&& *final(base) == *old(base)
                },
                Some((ui, di, ti)) => {
                    let tf = old(base).users@[ui].dbs@[di].tables@[ti];
                    match spec_encode_rows(tf.meta, crate::table::row_maps(rows@)) {
                        Err(e) => {
                            &&& r == Err::<(), DiskError>(e)
                            &&& *final(base) == *old(base)
                        },
                        Ok(chunk) => {
                            let tf2 = final(base).users@[ui].dbs@[di].tables@[ti];
                            &&& r is Ok
                            &&& tf2.bin@ == tf.bin@ + chunk
                            &&& tf2.meta == tf.meta
                            &&& tf2.idx == tf.idx
                            &&& final(base).users@ == old(base).users@.update(
                                ui,
                                final(base).users@[ui],
                            )
                            &&& final(base).users@[ui].name == old(base).users@[ui].name
                            &&& final(base).users@[ui].dbs@ == old(base).users@[ui].dbs@.update(
                                di,
                                final(base).users@[ui].dbs@[di],
                            )
                            &&& final(base).users@[ui].dbs@[di].name == old(
                                base,
                            ).users@[ui].dbs@[di].name
                            &&& final(base).users@[ui].dbs@[di].tables@ == old(
                                base,
                            ).users@[ui].dbs@[di].tables@.update(ti, tf2)
                        },
                    }
                },
            }),
    {
        let (ui, di, ti) = match Self::locate_for(base, username, db_name, table_name) {
            Ok(t) => t,
            Err(e) => {
                return Err(e);
            },
        };
        // encode every row first; nothing is written if any encoding fails
        let ghost maps = crate::table::row_maps(rows@);
        let mut chunk: Vec<u8> = Vec::new();
        let n = rows.len();
        let mut i: usize = 0;
        proof {
            assert(maps.skip(0) =~= maps);
            match spec_encode_rows(
                old(base).users@[ui as int].dbs@[di as int].tables@[ti as int].meta,
                maps,
            ) {
                Ok(full) => {
                    assert(chunk@ + full =~= full);
                },
                Err(_) => {},
            }
        }
        while i < n
            invariant
                n == rows@.len(),
                i <= n,
                maps == crate::table::row_maps(rows@),
                ui < base.users@.len(),
                di < base.users@[ui as int].dbs@.len(),
                ti < base.users@[ui as int].dbs@[di as int].tables@.len(),
                base == old(base),
                (match spec_encode_rows(
                    base.users@[ui as int].dbs@[di as int].tables@[ti as int].meta,
                    maps,
                ) {
                    Ok(full) => match spec_encode_rows(
                        base.users@[ui as int].dbs@[di as int].tables@[ti as int].meta,
                        maps.skip(i as int),
                    ) {
                        Ok(rest) => full == chunk@ + rest,
                        Err(_) => false,
                    },
                    Err(e) => (match spec_encode_rows(
                        base.users@[ui as int].dbs@[di as int].tables@[ti as int].meta,
                        maps.skip(i as int),
                    ) {
                        Ok(_) => false,
                        Err(e2) => e == e2,
                    }),
                }),
            decreases n - i,
        {
            proof {
                assert(maps.skip(i as int)[0] == rows@[i as int]@);
                assert(maps.skip(i as int).skip(1) =~= maps.skip(i + 1));
            }
            let rb = match crate::bytescoder::BytesCoder::row_to_bytes(
                &base.users[ui].dbs[di].tables[ti].meta,
                &rows[i],
            ) {
                Ok(b) => b,
                Err(_) => {
                    return Err(DiskError::BytesError);
                },
            };
            let ghost before = chunk@;
            let nb = rb.len();
            let mut j: usize = 0;
            while j < nb
                invariant
                    j <= nb,
                    nb == rb@.len(),
                    chunk@ =~= before + rb@.take(j as int),
                decreases nb - j,
            {
                chunk.push(rb[j]);
                proof {
                    assert(chunk@ =~= before + rb@.take(j + 1));
                }
                j += 1;
            }
            proof {
                assert(rb@.take(nb as int) =~= rb@);
                match spec_encode_rows(
                    base.users@[ui as int].dbs@[di as int].tables@[ti as int].meta,
                    maps.skip(i + 1),
                ) {
                    Ok(rest2) => {
                        assert(before + (rb@ + rest2) =~= chunk@ + rest2);
                    },
                    Err(_) => {},
                }
            }
            i += 1;
        }
        proof {
            match spec_encode_rows(
                base.users@[ui as int].dbs@[di as int].tables@[ti as int].meta,
                maps.skip(n as int),
            ) {
                Ok(rest) => {
                    assert(rest =~= Seq::<u8>::empty());
                    assert(chunk@ + rest =~= chunk@);
                },
                Err(_) => {},
            }
        }
        let mut u = base.users.remove(ui);
        let mut d = u.dbs.remove(di);
        let mut tf = d.tables.remove(ti);
        let ghost bin0 = tf.bin@;
        let nc = chunk.len();
        let mut j: usize = 0;
        while j < nc
            invariant
                j <= nc,
                nc == chunk@.len(),
                tf.bin@ =~= bin0 + chunk@.take(j as int),
                tf.meta == old(base).users@[ui as int].dbs@[di as int].tables@[ti as int].meta,
                tf.idx == old(base).users@[ui as int].dbs@[di as int].tables@[ti as int].idx,
            decreases nc - j,
        {
            tf.bin.push(chunk[j]);
            proof {
                assert(tf.bin@ =~= bin0 + chunk@.take(j + 1));
            }
            j += 1;
        }
        proof {
            assert(chunk@.take(nc as int) =~= chunk@);
        }
        d.tables.insert(ti, tf);
        u.dbs.insert(di, d);
        base.users.insert(ui, u);
        proof {
            assert(base.users@ =~= old(base).users@.update(ui as int, base.users@[ui as int]));
            assert(base.users@[ui as int].dbs@ =~= old(base).users@[ui as int].dbs@.update(
                di as int,
                base.users@[ui as int].dbs@[di as int],
            ));
            assert(base.users@[ui as int].dbs@[di as int].tables@ =~= old(
                base,
            ).users@[ui as int].dbs@[di as int].tables@.update(
                ti as int,
                base.users@[ui as int].dbs@[di as int].tables@[ti as int],
            ));
        }
        Ok(())
    }
}

/// Decoding the records `[lo, hi)` of a row file.
pub open spec fn spec_decode_records(
    meta: TableMeta,
    bin: Seq<u8>,
    lo: int,
    hi: int,
) -> Result<Seq<Map<Seq<char>, Seq<char>>>, DiskError>
    decreases hi - lo,
{
    if lo >= hi {
        Ok(Seq::empty())
    } else {
        match crate::bytescoder::spec_bytes_to_row(
            meta,
            spec_record(bin, meta.row_length as int, lo),
        ) {
            Err(_) => Err(DiskError::BytesError),
            Ok(m) => match spec_decode_records(meta, bin, lo + 1, hi) {
                Err(e) => Err(e),
                Ok(rest) => Ok(seq![m] + rest),
            },
        }
    }
}

impl DiskInterface {
    /// Reads the records `[lo, hi)` of a table: a short file fails, a
    /// tombstoned record in the range fails, otherwise each record is
    /// decoded to a row.
    #[verifier::loop_isolation(false)]
    #[verifier::rlimit(100)]
    pub fn fetch_rows(
        base: &FileBase,
        username: &str,
        db_name: &str,
        table_name: &str,
        row_range: &Vec<u32>,
    ) -> (r: Result<Vec<crate::table::Row>, DiskError>)
        requires
            row_range@.len() == 2,
            row_range@[0] <= row_range@[1],
            (row_range@[1] as int) * 0x1_0000_0000 <= usize::MAX,
            (match spec_locate(*base, username@, db_name@, table_name@) {
                Some((ui, di, ti)) => base.users@[ui].dbs@[di].tables@[ti].meta.row_length >= 1,
                None => true,
            }),
        ensures
            (match spec_locate(*base, username@, db_name@, table_name@) {
                None => r == Err::<Vec<crate::table::Row>, DiskError>(spec_locate_err(
                    *base,
                    username@,
                    db_name@,
                    table_name@,
                )),
                Some((ui, di, ti)) => {
                    let tf = base.users@[ui].dbs@[di].tables@[ti];
                    let rl = tf.meta.row_length as int;
                    let lo = row_range@[0] as int;
                    let hi = row_range@[1] as int;
                    if hi * rl > tf.bin@.len() {
                        r == Err::<Vec<crate::table::Row>, DiskError>(
                            DiskError::RangeExceedLatestRecord,
                        )
                    } else if exists|i: int| lo <= i < hi && tf.bin@[#[trigger] (i * rl)] == 0 {
                        r == Err::<Vec<crate::table::Row>, DiskError>(
                            DiskError::RangeContainsDeletedRecord,
                        )
                    } else {
                        match spec_decode_records(tf.meta, tf.bin@, lo, hi) {
                            Err(e) => r == Err::<Vec<crate::table::Row>, DiskError>(e),
                            Ok(maps) => {
                                &&& r is Ok
                                &&& r->Ok_0@.len() == maps.len()
                                &&& (forall|k: int| 0 <= k < maps.len() ==> {
                                    let row = #[trigger] r->Ok_0@[k];
                                    row@ == maps[k] && row.keys_unique() && row.is_dirty
                                        && !row.is_delete
                                })
                            },
                        }
                    }
                },
            }),
    {
        let (ui, di, ti) = match Self::locate_for(base, username, db_name, table_name) {
            Ok(t) => t,
            Err(e) => {
                return Err(e);
            },
        };
        let tf = &base.users[ui].dbs[di].tables[ti];
        let rl = tf.meta.row_length as usize;
        let lo = row_range[0] as usize;
        let hi = row_range[1] as usize;
        proof {
            assert((hi as int) * (rl as int) <= usize::MAX) by (nonlinear_arith)
                requires
                    rl < 0x1_0000_0000,
                    0 <= rl,
                    0 <= hi,
                    (hi as int) * 0x1_0000_0000 <= usize::MAX,
            ;
        }
        if hi * rl > tf.bin.len() {
            return Err(DiskError::RangeExceedLatestRecord);
        }
        // check liveness of the whole range first
        let mut i: usize = lo;
        while i < hi
            invariant
                lo <= i <= hi,
                hi * rl <= tf.bin@.len(),
                rl == tf.meta.row_length,
                forall|k: int| lo <= k < i ==> tf.bin@[#[trigger] (k * rl)] != 0,
            decreases hi - i,
        {
            proof {
                assert((i as int) * (rl as int) >= 0) by (nonlinear_arith)
                    requires i >= 0, rl >= 0,
                ;
                assert((i as int) * (rl as int) < (hi as int) * (rl as int))
                    by (nonlinear_arith)
                    requires i < hi, rl > 0,
                ;
            }
            if tf.bin[i * rl] == 0 {
                proof {
                    assert(tf.bin@[(i as int) * (rl as int)] == 0);
                }
                return Err(DiskError::RangeContainsDeletedRecord);
            }
            i += 1;
        }
        proof {
            assert(!(exists|k: int|
                row_range@[0] <= k < row_range@[1] && tf.bin@[#[trigger] (k * (rl as int))]
                    == 0));
        }
        // decode each record
        let ghost meta0 = tf.meta;
        let mut out: Vec<crate::table::Row> = Vec::new();
        let mut i: usize = lo;
        proof {
            match spec_decode_records(meta0, tf.bin@, lo as int, hi as int) {
                Ok(full) => {},
                Err(_) => {},
            }
        }
        while i < hi
            invariant
                lo <= i <= hi,
                hi * rl <= tf.bin@.len(),
                rl == tf.meta.row_length,
                meta0 == tf.meta,
                out@.len() == i - lo,
                (match spec_decode_records(meta0, tf.bin@, lo as int, hi as int) {
                    Ok(full) => match spec_decode_records(meta0, tf.bin@, i as int, hi as int) {
                        Ok(rest) => full.len() == out@.len() + rest.len() && (forall|k: int|
                            0 <= k < out@.len() ==> full[k] == (#[trigger] out@[k])@) && (
                        forall|k: int| 0 <= k < rest.len() ==> full[out@.len() + k] == rest[k]),
                        Err(_) => false,
                    },
                    Err(e) => (match spec_decode_records(meta0, tf.bin@, i as int, hi as int) {
                        Ok(_) => false,
                        Err(e2) => e == e2,
                    }),
                }),
                forall|k: int| 0 <= k < out@.len() ==> (#[trigger] out@[k]).keys_unique()
                    && out@[k].is_dirty && !out@[k].is_delete,
            decreases hi - i,
        {
            proof {
                assert((i as int) * (rl as int) >= 0) by (nonlinear_arith)
                    requires i >= 0, rl >= 0,
                ;
                assert((i as int + 1) * (rl as int) <= (hi as int) * (rl as int))
                    by (nonlinear_arith)
                    requires i + 1 <= hi, rl >= 0,
                ;
                assert((i as int) * (rl as int) <= (i as int + 1) * (rl as int))
                    by (nonlinear_arith)
                    requires rl >= 0,
                ;
                assert((i as int + 1) * (rl as int) == (i as int) * (rl as int) + rl)
                    by (nonlinear_arith);
            }
            let start = i * rl;
            let endp = start + rl;
            let mut rec: Vec<u8> = Vec::new();
            let mut j: usize = start;
            while j < endp
                invariant
                    start <= j <= endp <= tf.bin@.len(),
                    rec@ =~= tf.bin@.subrange(start as int, j as int),
                decreases endp - j,
            {
                rec.push(tf.bin[j]);
                proof {
                    assert(rec@ =~= tf.bin@.subrange(start as int, j + 1));
                }
                j += 1;
            }
            proof {
                assert(rec@ == spec_record(tf.bin@, rl as int, i as int));
            }
            let row = match crate::bytescoder::BytesCoder::bytes_to_row(
                &base.users[ui].dbs[di].tables[ti].meta,
                &rec,
            ) {
                Ok(rw) => rw,
                Err(_) => {
                    return Err(DiskError::BytesError);
                },
            };
            let ghost before = out@;
            out.push(row);
            proof {
                assert(out@.drop_last() =~= before);
                match spec_decode_records(meta0, tf.bin@, lo as int, hi as int) {
                    Ok(full) => {
                        match spec_decode_records(meta0, tf.bin@, i as int, hi as int) {
                            Ok(rest) => {
                                // rest = [row@] + rest'
                                match spec_decode_records(meta0, tf.bin@, i + 1, hi as int) {
                                    Ok(rest2) => {
                                        assert(rest == seq![row@] + rest2);
                                        assert(rest[0] == row@);
                                        assert(full[before.len() as int] == row@);
                                        assert forall|k: int|
                                            0 <= k < out@.len() implies full[k] == (
                                        #[trigger] out@[k])@ by {
                                            if k < out@.len() - 1 {
                                                assert(out@[k] == before[k]);
                                            } else {
                                                assert(out@[k] == row);
                                            }
                                        }
                                        assert forall|k: int|
                                            0 <= k < rest2.len() implies full[out@.len() + k]
                                            == rest2[k] by {
                                            assert(rest[k + 1] == rest2[k]);
                                            assert(full[before.len() + (k + 1)] == rest[k + 1]);
                                        }
                                    },
                                    Err(_) => {},
                                }
                            },
                            Err(_) => {},
                        }
                    },
                    Err(_) => {},
                }
            }
            i += 1;
        }
        proof {
            match spec_decode_records(meta0, tf.bin@, hi as int, hi as int) {
                Ok(rest) => {
                    assert(rest.len() == 0);
                },
                Err(_) => {},
            }
        }
        Ok(out)
    }

    /// Tombstones the records `[lo, hi)`: the whole range must exist
    /// and be live, and then only the liveness bytes are overwritten.
    #[verifier::loop_isolation(false)]
    #[verifier::rlimit(100)]
    pub fn delete_rows(
        base: &mut FileBase,
        username: &str,
        db_name: &str,
        table_name: &str,
        row_range: &Vec<u32>,
    ) -> (r: Result<(), DiskError>)
        requires
            row_range@.len() == 2,
            row_range@[0] <= row_range@[1],
            (row_range@[1] as int) * 0x1_0000_0000 <= usize::MAX,
            (match spec_locate(*old(base), username@, db_name@, table_name@) {
                Some((ui, di, ti)) => old(base).users@[ui].dbs@[di].tables@[ti].meta.row_length
                    >= 1,
                None => true,
            }),
        ensures
            (match spec_locate(*old(base), username@, db_name@, table_name@) {
                None => {
                    &&& r == Err::<(), DiskError>(spec_locate_err(
                        *old(base),
                        username@,
                        db_name@,
                        table_name@,
                    ))
                    &&& *final(base) == *old(base)
                },
                Some((ui, di, ti)) => {
                    let tf = old(base).users@[ui].dbs@[di].tables@[ti];
                    let rl = tf.meta.row_length as int;
                    let lo = row_range@[0] as int;
                    let hi = row_range@[1] as int;
                    if hi * rl > tf.bin@.len() {
                        &&& r == Err::<(), DiskError>(DiskError::RangeExceedLatestRecord)
                        &&& *final(base) == *old(base)
                    } else if exists|i: int| lo <= i < hi && tf.bin@[#[trigger] (i * rl)] == 0 {
                        &&& r == Err::<(), DiskError>(DiskError::RangeContainsDeletedRecord)
                        &&& *final(base) == *old(base)
                    } else {
                        let tf2 = final(base).users@[ui].dbs@[di].tables@[ti];
                        &&& r is Ok
                        &&& tf2.meta == tf.meta
                        &&& tf2.idx == tf.idx
                        &&& tf2.bin@.len() == tf.bin@.len()
                        &&& (forall|j: int| 0 <= j < tf.bin@.len() ==> #[trigger] tf2.bin@[j]
                            == (if exists|i: int| lo <= i < hi && j == #[trigger] (i * rl) {
                            0u8
                        } else {
                            tf.bin@[j]
                        }))
                        &&& final(base).users@ == old(base).users@.update(
                            ui,
                            final(base).users@[ui],
                        )
                        &&& final(base).users@[ui].name == old(base).users@[ui].name
                        &&& final(base).users@[ui].dbs@ == old(base).users@[ui].dbs@.update(
                            di,
                            final(base).users@[ui].dbs@[di],
                        )
                        &&& final(base).users@[ui].dbs@[di].name == old(
                            base,
                        ).users@[ui].dbs@[di].name
                        &&& final(base).users@[ui].dbs@[di].tables@ == old(
                            base,
                        ).users@[ui].dbs@[di].tables@.update(ti, tf2)
                    }
                },
            }),
    {
        let (ui, di, ti) = match Self::locate_for(base, username, db_name, table_name) {
            Ok(t) => t,
            Err(e) => {
                return Err(e);
            },
        };
        let rl = base.users[ui].dbs[di].tables[ti].meta.row_length as usize;
        let lo = row_range[0] as usize;
        let hi = row_range[1] as usize;
        proof {
            assert((hi as int) * (rl as int) <= usize::MAX) by (nonlinear_arith)
                requires
                    rl < 0x1_0000_0000,
                    0 <= rl,
                    0 <= hi,
                    (hi as int) * 0x1_0000_0000 <= usize::MAX,
            ;
        }
        if hi * rl > base.users[ui].dbs[di].tables[ti].bin.len() {
            return Err(DiskError::RangeExceedLatestRecord);
        }
        let mut i: usize = lo;
        while i < hi
            invariant
                lo <= i <= hi,
                base == old(base),
                ui < base.users@.len(),
                di < base.users@[ui as int].dbs@.len(),
                ti < base.users@[ui as int].dbs@[di as int].tables@.len(),
                rl == base.users@[ui as int].dbs@[di as int].tables@[ti as int].meta.row_length,
                hi * rl <= base.users@[ui as int].dbs@[di as int].tables@[ti as int].bin@.len(),
                forall|k: int| lo <= k < i ==> base.users@[ui as int].dbs@[di as
                    int].tables@[ti as int].bin@[#[trigger] (k * rl)] != 0,
            decreases hi - i,
        {
            proof {
                assert((i as int) * (rl as int) >= 0) by (nonlinear_arith)
                    requires i >= 0, rl >= 0,
                ;
                assert((i as int + 1) * (rl as int) <= (hi as int) * (rl as int))
                    by (nonlinear_arith)
                    requires i + 1 <= hi, rl >= 0,
                ;
                assert((i as int) * (rl as int) < (i as int + 1) * (rl as int) || rl == 0)
                    by (nonlinear_arith)
                    requires rl >= 0,
                ;
            }
            if base.users[ui].dbs[di].tables[ti].bin[i * rl] == 0 {
                return Err(DiskError::RangeContainsDeletedRecord);
            }
            i += 1;
        }
        let mut u = base.users.remove(ui);
        let mut d = u.dbs.remove(di);
        let mut tf = d.tables.remove(ti);
        let ghost bin0 = tf.bin@;
        let mut i: usize = lo;
        while i < hi
            invariant
                lo <= i <= hi,
                rl == tf.meta.row_length,
                hi * rl <= tf.bin@.len(),
                tf.bin@.len() == bin0.len(),
                tf.meta == old(base).users@[ui as int].dbs@[di as int].tables@[ti as int].meta,
                tf.idx == old(base).users@[ui as int].dbs@[di as int].tables@[ti as int].idx,
                forall|j: int| 0 <= j < bin0.len() ==> #[trigger] tf.bin@[j] == (
                if exists|k: int| lo <= k < i && j == #[trigger] (k * (rl as int)) {
                    0u8
                } else {
                    bin0[j]
                }),
            decreases hi - i,
        {
            proof {
                assert((i as int) * (rl as int) >= 0) by (nonlinear_arith)
                    requires i >= 0, rl >= 0,
                ;
                assert((i as int) * (rl as int) < (hi as int) * (rl as int)) by (nonlinear_arith)
                    requires i < hi, rl > 0,
                ;
            }
            let ghost before = tf.bin@;
            tf.bin.set(i * rl, 0);
            proof {
                assert forall|j: int| 0 <= j < bin0.len() implies #[trigger] tf.bin@[j] == (
                if exists|k: int| lo <= k < i + 1 && j == #[trigger] (k * (rl as int)) {
                    0u8
                } else {
                    bin0[j]
                }) by {
                    if j == (i as int) * (rl as int) {
                        assert(lo <= i as int && (i as int) < i + 1 && j == (i as int) * (
                        rl as int));
                        assert(exists|k: int|
                            lo <= k < i + 1 && j == #[trigger] (k * (rl as int)));
                    } else {
                        assert(tf.bin@[j] == before[j]);
                        if exists|k: int| lo <= k < i + 1 && j == #[trigger] (k * (rl as int)) {
                            let k = choose|k: int|
                                lo <= k < i + 1 && j == #[trigger] (k * (rl as int));
                            assert(k < i);
                            assert(exists|k2: int|
                                lo <= k2 < i && j == #[trigger] (k2 * (rl as int)));
                        }
                    }
                }
            }
            i += 1;
        }
        d.tables.insert(ti, tf);
        u.dbs.insert(di, d);
        base.users.insert(ui, u);
        proof {
            assert(base.users@ =~= old(base).users@.update(ui as int, base.users@[ui as int]));
            assert(base.users@[ui as int].dbs@ =~= old(base).users@[ui as int].dbs@.update(
                di as int,
                base.users@[ui as int].dbs@[di as int],
            ));
            assert(base.users@[ui as int].dbs@[di as int].tables@ =~= old(
                base,
            ).users@[ui as int].dbs@[di as int].tables@.update(
                ti as int,
                base.users@[ui as int].dbs@[di as int].tables@[ti as int],
            ));
        }
        Ok(())
    }
}

impl DiskInterface {
    /// Overwrites the records `[lo, hi)` with re-encoded new rows. The
    /// range must match the number of rows and be fully live; on any
    /// failure the file is left untouched, otherwise the whole range is
    /// replaced in one write.
    #[verifier::loop_isolation(false)]
    #[verifier::rlimit(100)]
    pub fn modify_rows(
        base: &mut FileBase,
        username: &str,
        db_name: &str,
        table_name: &str,
        row_range: &Vec<u32>,
        new_rows: &Vec<crate::table::Row>,
    ) -> (r: Result<(), DiskError>)
        requires
            row_range@.len() == 2,
            row_range@[0] <= row_range@[1],
            (row_range@[1] as int) * 0x1_0000_0000 <= usize::MAX,
            forall|i: int| 0 <= i < new_rows@.len() ==> (#[trigger] new_rows@[i]).keys_unique(),
            (match spec_locate(*old(base), username@, db_name@, table_name@) {
                Some((ui, di, ti)) => old(base).users@[ui].dbs@[di].tables@[ti].meta.row_length
                    >= 1,
                None => true,
            }),
        ensures
            (if row_range@[1] - row_range@[0] != new_rows@.len() {
                &&& r == Err::<(), DiskError>(DiskError::RangeAndNumRowsMismatch)
                &&& *final(base) == *old(base)
            } else {
                match spec_locate(*old(base), username@, db_name@, table_name@) {
                    None => {
                        &&& r == Err::<(), DiskError>(spec_locate_err(
                            *old(base),
                            username@,
                            db_name@,
                            table_name@,
                        ))
                        &&& *final(base) == *old(base)
                    },
                    Some((ui, di, ti)) => {
                        let tf = old(base).users@[ui].dbs@[di].tables@[ti];
                        let rl = tf.meta.row_length as int;
                        let lo = row_range@[0] as int;
                        let hi = row_range@[1] as int;
                        if hi * rl > tf.bin@.len() {
                            &&& r == Err::<(), DiskError>(DiskError::RangeExceedLatestRecord)
                            &&& *final(base) == *old(base)
                        } else if exists|i: int|
                            lo <= i < hi && tf.bin@[#[trigger] (i * rl)] == 0 {
                            &&& r == Err::<(), DiskError>(DiskError::RangeContainsDeletedRecord)
                            &&& *final(base) == *old(base)
                        } else {
                            match spec_encode_rows(tf.meta, crate::table::row_maps(new_rows@)) {
                                Err(e) => {
                                    &&& r == Err::<(), DiskError>(e)
                                    &&& *final(base) == *old(base)
                                },
                                Ok(chunk) => {
                                    let tf2 = final(base).users@[ui].dbs@[di].tables@[ti];
                                    &&& r is Ok
                                    &&& tf2.meta == tf.meta
                                    &&& tf2.idx == tf.idx
                                    &&& tf2.bin@ == tf.bin@.take(lo * rl) + chunk + tf.bin@.skip(
                                        (if lo * rl + chunk.len() <= tf.bin@.len() {
                                            lo * rl + chunk.len() as int
                                        } else {
                                            tf.bin@.len() as int
                                        }),
                                    )
                                    &&& final(base).users@ == old(base).users@.update(
                                        ui,
                                        final(base).users@[ui],
                                    )
                                    &&& final(base).users@[ui].name == old(base).users@[ui].name
                                    &&& final(base).users@[ui].dbs@ == old(
                                        base,
                                    ).users@[ui].dbs@.update(di, final(base).users@[ui].dbs@[di])
                                    &&& final(base).users@[ui].dbs@[di].name == old(
                                        base,
                                    ).users@[ui].dbs@[di].name
                                    &&& final(base).users@[ui].dbs@[di].tables@ == old(
                                        base,
                                    ).users@[ui].dbs@[di].tables@.update(ti, tf2)
                                },
                            }
                        }
                    },
                }
            }),
    {
        let lo32 = row_range[0];
        let hi32 = row_range[1];
        if (hi32 - lo32) as usize != new_rows.len() {
            return Err(DiskError::RangeAndNumRowsMismatch);
        }
        let (ui, di, ti) = match Self::locate_for(base, username, db_name, table_name) {
            Ok(t) => t,
            Err(e) => {
                return Err(e);
            },
        };
        let rl = base.users[ui].dbs[di].tables[ti].meta.row_length as usize;
        let lo = lo32 as usize;
        let hi = hi32 as usize;
        proof {
            assert((hi as int) * (rl as int) <= usize::MAX) by (nonlinear_arith)
                requires
                    rl < 0x1_0000_0000,
                    0 <= rl,
                    0 <= hi,
                    (hi as int) * 0x1_0000_0000 <= usize::MAX,
            ;
        }
        if hi * rl > base.users[ui].dbs[di].tables[ti].bin.len() {
            return Err(DiskError::RangeExceedLatestRecord);
        }
        let mut i: usize = lo;
        while i < hi
            invariant
                lo <= i <= hi,
                base == old(base),
                ui < base.users@.len(),
                di < base.users@[ui as int].dbs@.len(),
                ti < base.users@[ui as int].dbs@[di as int].tables@.len(),
                rl == base.users@[ui as int].dbs@[di as int].tables@[ti as int].meta.row_length,
                rl >= 1,
                hi * rl <= base.users@[ui as int].dbs@[di as int].tables@[ti as int].bin@.len(),
                forall|k: int| lo <= k < i ==> base.users@[ui as int].dbs@[di as
                    int].tables@[ti as int].bin@[#[trigger] (k * rl)] != 0,
            decreases hi - i,
        {
            proof {
                assert((i as int) * (rl as int) >= 0) by (nonlinear_arith)
                    requires i >= 0, rl >= 0,
                ;
                assert((i as int) * (rl as int) < (hi as int) * (rl as int)) by (nonlinear_arith)
                    requires i < hi, rl > 0,
                ;
            }
            if base.users[ui].dbs[di].tables[ti].bin[i * rl] == 0 {
                return Err(DiskError::RangeContainsDeletedRecord);
            }
            i += 1;
        }
        // encode all replacement rows before anything is written
        let ghost maps = crate::table::row_maps(new_rows@);
        let mut chunk: Vec<u8> = Vec::new();
        let n = new_rows.len();
        let mut i: usize = 0;
        proof {
            assert(maps.skip(0) =~= maps);
            match spec_encode_rows(
                old(base).users@[ui as int].dbs@[di as int].tables@[ti as int].meta,
                maps,
            ) {
                Ok(full) => {
                    assert(chunk@ + full =~= full);
                },
                Err(_) => {},
            }
        }
        while i < n
            invariant
                n == new_rows@.len(),
                i <= n,
                maps == crate::table::row_maps(new_rows@),
                base == old(base),
                ui < base.users@.len(),
                di < base.users@[ui as int].dbs@.len(),
                ti < base.users@[ui as int].dbs@[di as int].tables@.len(),
                (match spec_encode_rows(
                    base.users@[ui as int].dbs@[di as int].tables@[ti as int].meta,
                    maps,
                ) {
                    Ok(full) => match spec_encode_rows(
                        base.users@[ui as int].dbs@[di as int].tables@[ti as int].meta,
                        maps.skip(i as int),
                    ) {
                        Ok(rest) => full == chunk@ + rest,
                        Err(_) => false,
                    },
                    Err(e) => (match spec_encode_rows(
                        base.users@[ui as int].dbs@[di as int].tables@[ti as int].meta,
                        maps.skip(i as int),
                    ) {
                        Ok(_) => false,
                        Err(e2) => e == e2,
                    }),
                }),
            decreases n - i,
        {
            proof {
                assert(maps.skip(i as int)[0] == new_rows@[i as int]@);
                assert(maps.skip(i as int).skip(1) =~= maps.skip(i + 1));
            }
            let rb = match crate::bytescoder::BytesCoder::row_to_bytes(
                &base.users[ui].dbs[di].tables[ti].meta,
                &new_rows[i],
            ) {
                Ok(b) => b,
                Err(_) => {
                    return Err(DiskError::BytesError);
                },
            };
            let ghost before = chunk@;
            let nb = rb.len();
            let mut j: usize = 0;
            while j < nb
                invariant
                    j <= nb,
                    nb == rb@.len(),
                    chunk@ =~= before + rb@.take(j as int),
                decreases nb - j,
            {
                chunk.push(rb[j]);
                proof {
                    assert(chunk@ =~= before + rb@.take(j + 1));
                }
                j += 1;
            }
            proof {
                assert(rb@.take(nb as int) =~= rb@);
                match spec_encode_rows(
                    base.users@[ui as int].dbs@[di as int].tables@[ti as int].meta,
                    maps.skip(i + 1),
                ) {
                    Ok(rest2) => {
                        assert(before + (rb@ + rest2) =~= chunk@ + rest2);
                    },
                    Err(_) => {},
                }
            }
            i += 1;
        }
        proof {
            match spec_encode_rows(
                base.users@[ui as int].dbs@[di as int].tables@[ti as int].meta,
                maps.skip(n as int),
            ) {
                Ok(rest) => {
                    assert(rest =~= Seq::<u8>::empty());
                    assert(chunk@ + rest =~= chunk@);
                },
                Err(_) => {},
            }
        }
        // one overwrite of the contiguous range
        let mut u = base.users.remove(ui);
        let mut d = u.dbs.remove(di);
        let mut tf = d.tables.remove(ti);
        let ghost bin0 = tf.bin@;
        proof {
            assert((lo as int) * (rl as int) <= (hi as int) * (rl as int)) by (nonlinear_arith)
                requires lo <= hi, rl >= 0,
            ;
            assert((lo as int) * (rl as int) >= 0) by (nonlinear_arith)
                requires lo >= 0, rl >= 0,
            ;
        }
        let start = lo * rl;
        let nc = chunk.len();
        let mut j: usize = 0;
        proof {
            assert(bin0.take(start as int) + chunk@.take(0) + bin0.skip(start as int) =~= bin0);
        }
        while j < nc
            invariant
                j <= nc,
                nc == chunk@.len(),
                start <= bin0.len(),
                start <= tf.bin@.len(),
                tf.meta == old(base).users@[ui as int].dbs@[di as int].tables@[ti as int].meta,
                tf.idx == old(base).users@[ui as int].dbs@[di as int].tables@[ti as int].idx,
                tf.bin@ =~= bin0.take(start as int) + chunk@.take(j as int) + (
                if start + j <= bin0.len() {
                    bin0.skip(start + j)
                } else {
                    Seq::<u8>::empty()
                }),
            decreases nc - j,
        {
            let ghost before = tf.bin@;
            let cur = tf.bin.len();
            if j < cur - start {
                tf.bin.set(start + j, chunk[j]);
                proof {
                    assert(start + j < bin0.len() || start + j < before.len());
                    assert(tf.bin@ =~= bin0.take(start as int) + chunk@.take(j + 1) + (
                    if start + j + 1 <= bin0.len() {
                        bin0.skip(start + j + 1)
                    } else {
                        Seq::<u8>::empty()
                    }));
                }
            } else {
                tf.bin.push(chunk[j]);
                proof {
                    assert(tf.bin@ =~= bin0.take(start as int) + chunk@.take(j + 1) + (
                    if start + j + 1 <= bin0.len() {
                        bin0.skip(start + j + 1)
                    } else {
                        Seq::<u8>::empty()
                    }));
                }
            }
            j += 1;
        }
        proof {
            assert(chunk@.take(nc as int) =~= chunk@);
        }
        d.tables.insert(ti, tf);
        u.dbs.insert(di, d);
        base.users.insert(ui, u);
        proof {
            assert(base.users@ =~= old(base).users@.update(ui as int, base.users@[ui as int]));
            assert(base.users@[ui as int].dbs@ =~= old(base).users@[ui as int].dbs@.update(
                di as int,
                base.users@[ui as int].dbs@[di as int],
            ));
            assert(base.users@[ui as int].dbs@[di as int].tables@ =~= old(
                base,
            ).users@[ui as int].dbs@[di as int].tables@.update(
                ti as int,
                base.users@[ui as int].dbs@[di as int].tables@[ti as int],
            ));
        }
        Ok(())
    }
}

/// The field names not listed as primary keys, in declaration order.
pub open spec fn keep_non_pk(names: Seq<Seq<char>>, pk: Seq<Seq<char>>) -> Seq<Seq<char>>
    decreases names.len(),
{
    if names.len() == 0 {
        Seq::empty()
    } else if pk.contains(names.last()) {
        keep_non_pk(names.drop_last(), pk)
    } else {
        keep_non_pk(names.drop_last(), pk).push(names.last())
    }
}

pub proof fn lemma_keep_non_pk_len(names: Seq<Seq<char>>, pk: Seq<Seq<char>>)
    ensures
        keep_non_pk(names, pk).len() <= names.len(),
    decreases names.len(),
{
    if names.len() > 0 {
        lemma_keep_non_pk_len(names.drop_last(), pk);
    }
}

impl DiskInterface {
    /// Registers a table under a database: builds the persisted catalog
    /// record — the storing order (`__valid__`, then the primary keys
    /// in declared order, then the remaining fields sorted by name),
    /// the byte ranges, the record length — and an empty row file.
    #[verifier::loop_isolation(false)]
    #[verifier::rlimit(100)]
    #[verifier::spinoff_prover]
    pub fn create_table(
        base: &mut FileBase,
        username: &str,
        db_name: &str,
        table: &crate::table::Table,
    ) -> (r: Result<(), DiskError>)
        requires
            table.fields_wf(),
            forall|k: int| 0 <= k < table.primary_key@.len() ==> spec_field(
                table.fields@,
                (#[trigger] table.primary_key@[k])@,
            ) is Some,
            forall|i: int, j: int|
                0 <= i < j < table.primary_key@.len() ==> table.primary_key@[i]@
                    != table.primary_key@[j]@,
            table.fields@.len() + table.primary_key@.len() <= 0xFFFF,
        ensures
            (match spec_user_index(old(base).users@, username@) {
                None => {
                    &&& r == Err::<(), DiskError>(DiskError::UsernameNotExists)
                    &&& *final(base) == *old(base)
                },
                Some(ui) => {
                    let u = old(base).users@[ui];
                    match spec_db_index(u.dbs@, db_name@) {
                        None => {
                            &&& r == Err::<(), DiskError>(DiskError::DbNotExists)
                            &&& *final(base) == *old(base)
                        },
                        Some(di) => {
                            let d = u.dbs@[di];
                            if spec_tf_index(d.tables@, table.name@) is Some {
                                &&& r == Err::<(), DiskError>(DiskError::TableExists)
                                &&& *final(base) == *old(base)
                            } else {
                                let tf = final(base).users@[ui].dbs@[di].tables@.last();
                                let m = tf.meta;
                                let npk = table.primary_key@.len() as int;
                                &&& r is Ok
                                &&& final(base).users@ == old(base).users@.update(
                                    ui,
                                    final(base).users@[ui],
                                )
                                &&& final(base).users@[ui].name == u.name
                                &&& final(base).users@[ui].dbs@ == u.dbs@.update(
                                    di,
                                    final(base).users@[ui].dbs@[di],
                                )
                                &&& final(base).users@[ui].dbs@[di].name == d.name
                                &&& final(base).users@[ui].dbs@[di].tables@.len()
                                    == d.tables@.len() + 1
                                &&& final(base).users@[ui].dbs@[di].tables@.drop_last()
                                    == d.tables@
                                &&& tf.bin@.len() == 0
                                &&& tf.idx@.len() == 0
                                &&& m.wf()
                                &&& m.name@ == table.name@
                                &&& m.username@ == username@
                                &&& m.db_name@ == db_name@
                                &&& m.path_bin@ == table.name@ + ".bin"@
                                &&& m.path_tsv@ == table.name@ + ".tsv"@
                                &&& m.primary_key.deep_view() == table.primary_key.deep_view()
                                &&& m.foreign_key.deep_view() == table.foreign_key.deep_view()
                                &&& m.reference_table == table.reference_table
                                &&& m.reference_attr == table.reference_attr
                                &&& m.attrs@ == table.fields@
                                &&& m.attrs_order@.len() == 1 + npk + keep_non_pk(
                                    crate::table::name_views(
                                        crate::table::field_names_of(table.fields@),
                                    ),
                                    table.primary_key.deep_view(),
                                ).len()
                                &&& m.attrs_order@[0]@ == "__valid__"@
                                &&& (forall|k: int|
                                    0 <= k < npk ==> (#[trigger] m.attrs_order@[1 + k])@
                                        == table.primary_key@[k]@)
                                &&& crate::table::names_sorted(
                                    crate::table::name_views(m.attrs_order@.skip(1 + npk)),
                                )
                                &&& crate::table::name_views(
                                    m.attrs_order@.skip(1 + npk),
                                ).to_multiset() == keep_non_pk(
                                    crate::table::name_views(
                                        crate::table::field_names_of(table.fields@),
                                    ),
                                    table.primary_key.deep_view(),
                                ).to_multiset()
                            }
                        },
                    }
                },
            }),
    {
        let ui = match base.user_index(username) {
            None => {
                return Err(DiskError::UsernameNotExists);
            },
            Some(ui) => ui,
        };
        let di = match base.users[ui].db_index(db_name) {
            None => {
                return Err(DiskError::DbNotExists);
            },
            Some(di) => di,
        };
        if base.users[ui].dbs[di].table_file_index(table.name.as_str()).is_some() {
            return Err(DiskError::TableExists);
        }

        let ghost all_names = crate::table::name_views(crate::table::field_names_of(
            table.fields@,
        ));
        let ghost pkv = table.primary_key.deep_view();
        proof {
            assert(pkv.len() == table.primary_key@.len());
            assert(forall|k: int| 0 <= k < pkv.len() ==> pkv[k] == table.primary_key@[k]@);
            assert(all_names.len() == table.fields@.len());
            assert(forall|k: int|
                0 <= k < table.fields@.len() ==> all_names[k] == (
                #[trigger] table.fields@[k]).name@);
        }

        // the fields outside the primary key, in declaration order
        let mut others: Vec<String> = Vec::new();
        let nf = table.fields.len();
        let mut i: usize = 0;
        proof {
            assert(others.deep_view() =~= keep_non_pk(all_names.take(0), pkv));
        }
        while i < nf
            invariant
                i <= nf,
                nf == table.fields@.len(),
                others.deep_view() == keep_non_pk(all_names.take(i as int), pkv),
                others@.len() <= i,
                forall|k: int| 0 <= k < others.deep_view().len() ==> spec_field(
                    table.fields@,
                    #[trigger] others.deep_view()[k],
                ) is Some,
            decreases nf - i,
        {
            let name = &table.fields[i].name;
            let mut in_pk = false;
            let npk = table.primary_key.len();
            let mut j: usize = 0;
            while j < npk && !in_pk
                invariant
                    j <= npk,
                    npk == table.primary_key@.len(),
                    in_pk ==> pkv.contains(table.fields@[i as int].name@),
                    !in_pk ==> forall|k: int| 0 <= k < j ==> pkv[k] != table.fields@[
                        i as int].name@,
                decreases npk - j, (if in_pk { 0int } else { 1int }),
            {
                if crate::strutil::str_eq(table.primary_key[j].as_str(), name.as_str()) {
                    in_pk = true;
                    proof {
                        assert(pkv[j as int] == table.fields@[i as int].name@);
                    }
                } else {
                    j += 1;
                }
            }
            proof {
                assert(all_names.take(i + 1).drop_last() =~= all_names.take(i as int));
                assert(all_names.take(i + 1).last() == table.fields@[i as int].name@);
            }
            if !in_pk {
                let ghost before = others.deep_view();
                others.push(name.clone());
                proof {
                    assert(others.deep_view() =~= before.push(table.fields@[i as int].name@));
                    crate::table::lemma_spec_field_contains(
                        table.fields@,
                        table.fields@[i as int].name@,
                    );
                }
            }
            i += 1;
        }
        proof {
            assert(all_names.take(nf as int) =~= all_names);
        }
        let ghost nonpk = keep_non_pk(all_names, pkv);
        let sorted = crate::table::sort_strings(others);
        proof {
            broadcast use vstd::seq_lib::group_to_multiset_ensures;

            assert(sorted.deep_view().to_multiset() == nonpk.to_multiset());
            assert(sorted.deep_view().to_multiset().len() == nonpk.to_multiset().len());
            assert forall|k: int| 0 <= k < sorted.deep_view().len() implies spec_field(
                table.fields@,
                #[trigger] sorted.deep_view()[k],
            ) is Some by {
                let e = sorted.deep_view()[k];
                assert(sorted.deep_view().contains(e));
                assert(sorted.deep_view().to_multiset().contains(e));
                assert(nonpk.to_multiset().contains(e));
                assert(nonpk.contains(e));
                let k2 = choose|k2: int| 0 <= k2 < nonpk.len() && nonpk[k2] == e;
            }
        }

        // storing order: liveness byte, primary keys, the rest sorted
        let mut order: Vec<String> = Vec::new();
        order.push(String::from_str("__valid__"));
        let npk = table.primary_key.len();
        let mut k: usize = 0;
        while k < npk
            invariant
                k <= npk,
                npk == table.primary_key@.len(),
                order@.len() == 1 + k,
                order@[0]@ == "__valid__"@,
                forall|q: int| 0 <= q < k ==> (#[trigger] order@[1 + q])@
                    == table.primary_key@[q]@,
            decreases npk - k,
        {
            order.push(table.primary_key[k].clone());
            k += 1;
        }
        let nso = sorted.len();
        let mut k: usize = 0;
        while k < nso
            invariant
                k <= nso,
                nso == sorted@.len(),
                order@.len() == 1 + npk + k,
                order@[0]@ == "__valid__"@,
                npk == table.primary_key@.len(),
                forall|q: int| 0 <= q < npk ==> (#[trigger] order@[1 + q])@
                    == table.primary_key@[q]@,
                forall|q: int| 0 <= q < k ==> (#[trigger] order@[1 + npk + q])@
                    == sorted.deep_view()[q],
            decreases nso - k,
        {
            order.push(sorted[k].clone());
            k += 1;
        }
        proof {
            assert forall|q: int|
                0 <= q < sorted.deep_view().len() implies crate::table::name_views(
                order@.skip(1 + npk),
            )[q] == sorted.deep_view()[q] by {
                assert(order@.skip(1 + npk)[q] == order@[1 + npk + q]);
            }
            assert(crate::table::name_views(order@.skip(1 + npk)) =~= sorted.deep_view());
        }

        // a value-equal copy of the schema
        let mut attrs: Vec<Field> = Vec::new();
        let mut k: usize = 0;
        while k < nf
            invariant
                k <= nf,
                nf == table.fields@.len(),
                attrs@ =~= table.fields@.take(k as int),
            decreases nf - k,
        {
            attrs.push(table.fields[k].duplicate());
            proof {
                assert(attrs@ =~= table.fields@.take(k + 1));
            }
            k += 1;
        }
        proof {
            assert(attrs@ =~= table.fields@);
        }

        // cumulative byte ranges and the record length
        let mut ranges: Vec<Vec<u32>> = Vec::new();
        let mut first: Vec<u32> = Vec::new();
        first.push(0);
        first.push(1);
        ranges.push(first);
        let mut curr: u32 = 1;
        let no = order.len();
        proof {
            lemma_keep_non_pk_len(all_names, pkv);
            assert(sorted@.len() == nonpk.len()) by {
                assert(sorted.deep_view().len() == sorted@.len());
                assert(sorted.deep_view().to_multiset().len() == sorted.deep_view().len());
                assert(nonpk.to_multiset().len() == nonpk.len());
            }
            assert(no <= 1 + 0xFFFF + 0xFFFF);
            assert(ranges@[0]@ =~= seq![0u32, 1u32]);
        }
        let mut k: usize = 1;
        while k < no
            invariant
                1 <= k <= no,
                no == order@.len(),
                no <= 1 + 0xFFFF + 0xFFFF,
                attrs@ == table.fields@,
                ranges@.len() == k,
                1 <= curr <= 1 + 255 * (k - 1),
                ranges@[0]@.len() == 2,
                ranges@[0]@[0] == 0,
                ranges@[0]@[1] == 1,
                forall|q: int| 0 <= q < k ==> (#[trigger] ranges@[q])@.len() == 2,
                forall|q: int| 1 <= q < k ==> (#[trigger] ranges@[q])@[0] == ranges@[q - 1]@[1],
                forall|q: int| 1 <= q < k ==> spec_field(attrs@, (#[trigger] order@[q])@)
                    is Some,
                forall|q: int| 1 <= q < k ==> (#[trigger] ranges@[q])@[1] == ranges@[q]@[0]
                    + spec_field(attrs@, order@[q]@)->Some_0.datatype.spec_size(),
                curr == ranges@[k - 1]@[1],
                npk == table.primary_key@.len(),
                forall|q: int| 0 <= q < npk ==> (#[trigger] order@[1 + q])@
                    == table.primary_key@[q]@,
                forall|q: int| 0 <= q < sorted.deep_view().len() ==> (
                #[trigger] order@[1 + npk + q])@ == sorted.deep_view()[q],
                no == 1 + npk + sorted.deep_view().len(),
                forall|q: int| 0 <= q < sorted.deep_view().len() ==> spec_field(
                    table.fields@,
                    #[trigger] sorted.deep_view()[q],
                ) is Some,
            decreases no - k,
        {
            proof {
                if k < 1 + npk {
                    assert(order@[1 + (k - 1)]@ == table.primary_key@[k - 1]@);
                    assert(order@[k as int]@ == table.primary_key@[k - 1]@);
                    assert(spec_field(table.fields@, order@[k as int]@) is Some);
                } else {
                    assert(order@[k as int]@ == sorted.deep_view()[k - 1 - npk]);
                    assert(spec_field(table.fields@, order@[k as int]@) is Some);
                }
            }
            let name = &order[k];
            let mut found: Option<&Field> = None;
            let mut q: usize = 0;
            proof {
                assert(attrs@.skip(0) =~= attrs@);
            }
            while q < nf
                invariant
                    q <= nf,
                    nf == attrs@.len(),
                    found is None,
                    spec_field(attrs@, name@) == spec_field(attrs@.skip(q as int), name@),
                decreases nf - q,
            {
                proof {
                    assert(attrs@.skip(q as int)[0] == attrs@[q as int]);
                    assert(attrs@.skip(q as int).skip(1) =~= attrs@.skip(q + 1));
                }
                if crate::strutil::str_eq(attrs[q].name.as_str(), name.as_str()) {
                    found = Some(&attrs[q]);
                    break;
                }
                q += 1;
            }
            let f = match found {
                Some(f) => f,
                None => {
                    proof {
                        assert(attrs@.skip(nf as int).len() == 0);
                        assert(false);
                    }
                    return Err(DiskError::AttrNotExists);
                },
            };
            let size = Self::get_datatype_size(&f.datatype);
            proof {
                assert(size <= 255);
            }
            let mut pair: Vec<u32> = Vec::new();
            pair.push(curr);
            pair.push(curr + size);
            proof {
                assert(pair@ =~= seq![curr, (curr + size) as u32]);
            }
            ranges.push(pair);
            curr = curr + size;
            k += 1;
        }
        let meta = TableMeta {
            name: table.name.clone(),
            username: username.to_owned(),
            db_name: db_name.to_owned(),
            path_tsv: table.name.clone().concat(".tsv"),
            path_bin: table.name.clone().concat(".bin"),
            primary_key: crate::table::clone_string_vec(&table.primary_key),
            foreign_key: crate::table::clone_string_vec(&table.foreign_key),
            reference_table: match &table.reference_table {
                Some(s) => Some(s.clone()),
                None => None,
            },
            reference_attr: match &table.reference_attr {
                Some(s) => Some(s.clone()),
                None => None,
            },
            row_length: curr,
            attrs,
            attrs_order: order,
            attr_offset_ranges: ranges,
        };
        proof {
            assert(meta.attrs_order@.len() >= 1);
            assert(meta.attr_offset_ranges@.len() == meta.attrs_order@.len());
            assert(meta.attrs_order@[0]@ == "__valid__"@);
            assert(forall|q: int, w: int|
                0 <= q < w < meta.attrs@.len() ==> meta.attrs@[q].name@ != meta.attrs@[w].name@);
            assert(forall|q: int|
                0 <= q < meta.attr_offset_ranges@.len()
                    ==> (#[trigger] meta.attr_offset_ranges@[q])@.len() == 2);
            assert(meta.attr_offset_ranges@[0]@[0] == 0);
            assert(meta.attr_offset_ranges@[0]@[1] == 1);
            assert(forall|q: int|
                1 <= q < meta.attr_offset_ranges@.len()
                    ==> (#[trigger] meta.attr_offset_ranges@[q])@[0]
                    == meta.attr_offset_ranges@[q - 1]@[1]);
            assert(forall|q: int|
                1 <= q < meta.attrs_order@.len() ==> spec_field(
                    meta.attrs@,
                    (#[trigger] meta.attrs_order@[q])@,
                ) is Some);
            assert(forall|q: int|
                1 <= q < meta.attrs_order@.len()
                    ==> (#[trigger] meta.attr_offset_ranges@[q])@[1]
                    == meta.attr_offset_ranges@[q]@[0] + spec_field(
                    meta.attrs@,
                    meta.attrs_order@[q]@,
                )->Some_0.datatype.spec_size());
            assert(meta.row_length == meta.attr_offset_ranges@[meta.attr_offset_ranges@.len()
                - 1]@[1]);
            assert(meta.row_length >= 1);
            assert(meta.wf());
            assert(meta.primary_key.deep_view() =~= table.primary_key.deep_view());
            assert(meta.foreign_key.deep_view() =~= table.foreign_key.deep_view());
        }
        let mut u = base.users.remove(ui);
        let mut d = u.dbs.remove(di);
        let ghost before_tables = d.tables@;
        d.tables.push(TableFile { meta, bin: Vec::new(), idx: Vec::new() });
        proof {
            assert(d.tables@.drop_last() =~= before_tables);
        }
        u.dbs.insert(di, d);
        base.users.insert(ui, u);
        proof {
            assert(base.users@ =~= old(base).users@.update(ui as int, base.users@[ui as int]));
            assert(base.users@[ui as int].dbs@ =~= old(base).users@[ui as int].dbs@.update(
                di as int,
                base.users@[ui as int].dbs@[di as int],
            ));
        }
        Ok(())
    }
}

impl DiskError {
    /// The message shown to clients for this error.
    pub fn message(&self) -> (r: String)
        ensures
            r@ == spec_disk_err_text(*self),
    {
        match self {
            DiskError::Io => String::from_str("No such file or directory."),
            DiskError::BaseDirExists => String::from_str("Base dir already exists and cannot be created again."),
            DiskError::BaseDirNotExists => String::from_str("Base data directory not exists. All data lost."),
            DiskError::UsernamesJsonNotExists => String::from_str("The file `usernames.json` is lost"),
            DiskError::UsernameExists => String::from_str("User name already exists and cannot be created again."),
            DiskError::UsernameNotExists => String::from_str("Specified user name not exists. Please create this username first."),
            DiskError::UsernameDirNotExists => String::from_str("Username exists but corresponding data folder is lost."),
            DiskError::DbsJsonNotExists => String::from_str("The `dbs.json` of the username is lost"),
            DiskError::DbExists => String::from_str("DB already exists and cannot be created again."),
            DiskError::DbNotExists => String::from_str("DB not exists. Please create DB first."),
            DiskError::DbDirNotExists => String::from_str("DB exists but correspoding data folder is lost."),
            DiskError::TablesJsonNotExists => String::from_str("The `tables.json` of the DB is lost."),
            DiskError::TableExists => String::from_str("Table already exists and cannot be created again."),
            DiskError::TableNotExists => String::from_str("Table not exists. Please create table first."),
            DiskError::TableBinNotExists => String::from_str("Table exists but correspoding bin file is lost."),
            DiskError::TableTsvNotExists => String::from_str("Table exists but correspoding tsv file is lost."),
            DiskError::TableIdxFileNotExists => String::from_str("Index file does not exist. Please build and save it before you can load from it."),
            DiskError::JsonParse => String::from_str("JSON parsing error."),
            DiskError::RangeContainsDeletedRecord => String::from_str("The range of rows to fetch contains deleted records."),
            DiskError::RangeExceedLatestRecord => String::from_str("The range of rows to fetch exceeds the latest record on the table."),
            DiskError::RangeAndNumRowsMismatch => String::from_str("The range of rows does not match number of rows to be modified."),
            DiskError::AttrNotExists => String::from_str("The row does not contain specified attribute."),
            DiskError::DuplicatedKey => String::from_str("the primary key is duplicated"),
            DiskError::BytesError => String::from_str("Error raised from BytesCoder."),
        }
    }
}

/// Two catalog records carry the same values.
pub open spec fn meta_equiv(a: TableMeta, b: TableMeta) -> bool {
    &&& a.name@ == b.name@
    &&& a.username@ == b.username@
    &&& a.db_name@ == b.db_name@
    &&& a.path_tsv@ == b.path_tsv@
    &&& a.path_bin@ == b.path_bin@
    &&& a.primary_key.deep_view() == b.primary_key.deep_view()
    &&& a.foreign_key.deep_view() == b.foreign_key.deep_view()
    &&& a.reference_table == b.reference_table
    &&& a.reference_attr == b.reference_attr
    &&& a.row_length == b.row_length
    &&& a.attrs@ == b.attrs@
    &&& a.attrs_order.deep_view() == b.attrs_order.deep_view()
    &&& a.attr_offset_ranges@.len() == b.attr_offset_ranges@.len()
    &&& (forall|i: int|
        0 <= i < a.attr_offset_ranges@.len() ==> (#[trigger] a.attr_offset_ranges@[i])@
            == b.attr_offset_ranges@[i]@)
}

impl TableMeta {
    /// A value-equal copy of the catalog record.
    pub fn duplicate(&self) -> (r: TableMeta)
        ensures
            meta_equiv(r, *self),
    {
        let mut attrs: Vec<Field> = Vec::new();
        let na = self.attrs.len();
        let mut i: usize = 0;
        while i < na
            invariant
                i <= na,
                na == self.attrs@.len(),
                attrs@ =~= self.attrs@.take(i as int),
            decreases na - i,
        {
            attrs.push(self.attrs[i].duplicate());
            proof {
                assert(attrs@ =~= self.attrs@.take(i + 1));
            }
            i += 1;
        }
        proof {
            assert(attrs@ =~= self.attrs@);
        }
        let mut ranges: Vec<Vec<u32>> = Vec::new();
        let nr = self.attr_offset_ranges.len();
        let mut i: usize = 0;
        while i < nr
            invariant
                i <= nr,
                nr == self.attr_offset_ranges@.len(),
                ranges@.len() == i,
                forall|k: int| 0 <= k < i ==> (#[trigger] ranges@[k])@
                    == self.attr_offset_ranges@[k]@,
            decreases nr - i,
        {
            let src = &self.attr_offset_ranges[i];
            let mut pair: Vec<u32> = Vec::new();
            let np = src.len();
            let mut j: usize = 0;
            while j < np
                invariant
                    j <= np,
                    np == src@.len(),
                    pair@ =~= src@.take(j as int),
                decreases np - j,
            {
                pair.push(src[j]);
                proof {
                    assert(pair@ =~= src@.take(j + 1));
                }
                j += 1;
            }
            proof {
                assert(pair@ =~= src@);
            }
            ranges.push(pair);
            i += 1;
        }
        let r = TableMeta {
            name: self.name.clone(),
            username: self.username.clone(),
            db_name: self.db_name.clone(),
            path_tsv: self.path_tsv.clone(),
            path_bin: self.path_bin.clone(),
            primary_key: crate::table::clone_string_vec(&self.primary_key),
            foreign_key: crate::table::clone_string_vec(&self.foreign_key),
            reference_table: match &self.reference_table {
                Some(s) => Some(s.clone()),
                None => None,
            },
            reference_attr: match &self.reference_attr {
                Some(s) => Some(s.clone()),
                None => None,
            },
            row_length: self.row_length,
            attrs,
            attrs_order: crate::table::clone_string_vec(&self.attrs_order),
            attr_offset_ranges: ranges,
        };
        proof {
            assert(r.primary_key.deep_view() =~= self.primary_key.deep_view());
            assert(r.foreign_key.deep_view() =~= self.foreign_key.deep_view());
            assert(r.attrs_order.deep_view() =~= self.attrs_order.deep_view());
        }
        r
    }
}

impl DiskInterface {
    /// The table names of a database, in registration order.
    pub fn get_tables(base: &FileBase, username: &str, db_name: &str) -> (r: Result<
        Vec<String>,
        DiskError,
    >)
        ensures
            (match spec_user_index(base.users@, username@) {
                None => r == Err::<Vec<String>, DiskError>(DiskError::UsernameNotExists),
                Some(ui) => match spec_db_index(base.users@[ui].dbs@, db_name@) {
                    None => r == Err::<Vec<String>, DiskError>(DiskError::DbNotExists),
                    Some(di) => r is Ok && r->Ok_0.deep_view() == base.users@[ui].dbs@[
                        di].tables@.map(|i: int, t: TableFile| t.meta.name@),
                },
            }),
    {
        let ui = match base.user_index(username) {
            None => {
                return Err(DiskError::UsernameNotExists);
            },
            Some(ui) => ui,
        };
        let di = match base.users[ui].db_index(db_name) {
            None => {
                return Err(DiskError::DbNotExists);
            },
            Some(di) => di,
        };
        let d = &base.users[ui].dbs[di];
        let n = d.tables.len();
        let mut out: Vec<String> = Vec::new();
        let mut i: usize = 0;
        while i < n
            invariant
                n == d.tables@.len(),
                i <= n,
                out.deep_view() =~= d.tables@.map(|k: int, t: TableFile| t.meta.name@).take(
                    i as int,
                ),
            decreases n - i,
        {
            let ghost before = out.deep_view();
            out.push(d.tables[i].meta.name.clone());
            proof {
                assert(out.deep_view() =~= before.push(d.tables@[i as int].meta.name@));
                assert(out.deep_view() =~= d.tables@.map(|k: int, t: TableFile| t.meta.name@)
                    .take(i + 1));
            }
            i += 1;
        }
        proof {
            assert(d.tables@.map(|k: int, t: TableFile| t.meta.name@).take(n as int)
                =~= d.tables@.map(|k: int, t: TableFile| t.meta.name@));
        }
        Ok(out)
    }

    /// Copies of every table's catalog record in a database.
    pub fn load_tables_meta(base: &FileBase, username: &str, db_name: &str) -> (r: Result<
        Vec<TableMeta>,
        DiskError,
    >)
        ensures
            (match spec_user_index(base.users@, username@) {
                None => r == Err::<Vec<TableMeta>, DiskError>(DiskError::UsernameNotExists),
                Some(ui) => match spec_db_index(base.users@[ui].dbs@, db_name@) {
                    None => r == Err::<Vec<TableMeta>, DiskError>(DiskError::DbNotExists),
                    Some(di) => {
                        let ts = base.users@[ui].dbs@[di].tables@;
                        &&& r is Ok
                        &&& r->Ok_0@.len() == ts.len()
                        &&& (forall|k: int| 0 <= k < ts.len() ==> meta_equiv(
                            #[trigger] r->Ok_0@[k],
                            ts[k].meta,
                        ))
                    },
                },
            }),
    {
        let ui = match base.user_index(username) {
            None => {
                return Err(DiskError::UsernameNotExists);
            },
            Some(ui) => ui,
        };
        let di = match base.users[ui].db_index(db_name) {
            None => {
                return Err(DiskError::DbNotExists);
            },
            Some(di) => di,
        };
        let d = &base.users[ui].dbs[di];
        let n = d.tables.len();
        let mut out: Vec<TableMeta> = Vec::new();
        let mut i: usize = 0;
        while i < n
            invariant
                n == d.tables@.len(),
                i <= n,
                out@.len() == i,
                forall|k: int| 0 <= k < i ==> meta_equiv(#[trigger] out@[k], d.tables@[k].meta),
            decreases n - i,
        {
            out.push(d.tables[i].meta.duplicate());
            i += 1;
        }
        Ok(out)
    }

    /// A copy of one table's catalog record.
    pub fn load_table_meta(
        base: &FileBase,
        username: &str,
        db_name: &str,
        table_name: &str,
    ) -> (r: Result<TableMeta, DiskError>)
        ensures
            (match spec_locate(*base, username@, db_name@, table_name@) {
                None => r == Err::<TableMeta, DiskError>(spec_locate_err(
                    *base,
                    username@,
                    db_name@,
                    table_name@,
                )),
                Some((ui, di, ti)) => r is Ok && meta_equiv(
                    r->Ok_0,
                    base.users@[ui].dbs@[di].tables@[ti].meta,
                ),
            }),
    {
        let (ui, di, ti) = match Self::locate_for(base, username, db_name, table_name) {
            Ok(t) => t,
            Err(e) => {
                return Err(e);
            },
        };
        Ok(base.users[ui].dbs[di].tables[ti].meta.duplicate())
    }

    /// Removes a table's catalog record and row file.
    pub fn drop_table(
        base: &mut FileBase,
        username: &str,
        db_name: &str,
        table_name: &str,
    ) -> (r: Result<(), DiskError>)
        ensures
            (match spec_locate(*old(base), username@, db_name@, table_name@) {
                None => {
                    &&& r == Err::<(), DiskError>(spec_locate_err(
                        *old(base),
                        username@,
                        db_name@,
                        table_name@,
                    ))
                    &&& *final(base) == *old(base)
                },
                Some((ui, di, ti)) => {
                    &&& r is Ok
                    &&& final(base).users@ == old(base).users@.update(
                        ui,
                        final(base).users@[ui],
                    )
                    &&& final(base).users@[ui].name == old(base).users@[ui].name
                    &&& final(base).users@[ui].dbs@ == old(base).users@[ui].dbs@.update(
                        di,
                        final(base).users@[ui].dbs@[di],
                    )
                    &&& final(base).users@[ui].dbs@[di].name == old(
                        base,
                    ).users@[ui].dbs@[di].name
                    &&& final(base).users@[ui].dbs@[di].tables@ == old(
                        base,
                    ).users@[ui].dbs@[di].tables@.remove(ti)
                },
            }),
    {
        let (ui, di, ti) = match Self::locate_for(base, username, db_name, table_name) {
            Ok(t) => t,
            Err(e) => {
                return Err(e);
            },
        };
        let mut u = base.users.remove(ui);
        let mut d = u.dbs.remove(di);
        d.tables.remove(ti);
        u.dbs.insert(di, d);
        base.users.insert(ui, u);
        proof {
            assert(base.users@ =~= old(base).users@.update(ui as int, base.users@[ui as int]));
            assert(base.users@[ui as int].dbs@ =~= old(base).users@[ui as int].dbs@.update(
                di as int,
                base.users@[ui as int].dbs@[di as int],
            ));
        }
        Ok(())
    }
}

/// The message text of a storage error.
pub open spec fn spec_disk_err_text(e: DiskError) -> Seq<char> {
    match e {
        DiskError::Io => "No such file or directory."@,
        DiskError::BaseDirExists => "Base dir already exists and cannot be created again."@,
        DiskError::BaseDirNotExists => "Base data directory not exists. All data lost."@,
        DiskError::UsernamesJsonNotExists => "The file `usernames.json` is lost"@,
        DiskError::UsernameExists => "User name already exists and cannot be created again."@,
        DiskError::UsernameNotExists => "Specified user name not exists. Please create this username first."@,
        DiskError::UsernameDirNotExists => "Username exists but corresponding data folder is lost."@,
        DiskError::DbsJsonNotExists => "The `dbs.json` of the username is lost"@,
        DiskError::DbExists => "DB already exists and cannot be created again."@,
        DiskError::DbNotExists => "DB not exists. Please create DB first."@,
        DiskError::DbDirNotExists => "DB exists but correspoding data folder is lost."@,
        DiskError::TablesJsonNotExists => "The `tables.json` of the DB is lost."@,
        DiskError::TableExists => "Table already exists and cannot be created again."@,
        DiskError::TableNotExists => "Table not exists. Please create table first."@,
        DiskError::TableBinNotExists => "Table exists but correspoding bin file is lost."@,
        DiskError::TableTsvNotExists => "Table exists but correspoding tsv file is lost."@,
        DiskError::TableIdxFileNotExists => "Index file does not exist. Please build and save it before you can load from it."@,
        DiskError::JsonParse => "JSON parsing error."@,
        DiskError::RangeContainsDeletedRecord => "The range of rows to fetch contains deleted records."@,
        DiskError::RangeExceedLatestRecord => "The range of rows to fetch exceeds the latest record on the table."@,
        DiskError::RangeAndNumRowsMismatch => "The range of rows does not match number of rows to be modified."@,
        DiskError::AttrNotExists => "The row does not contain specified attribute."@,
        DiskError::DuplicatedKey => "the primary key is duplicated"@,
        DiskError::BytesError => "Error raised from BytesCoder."@,
    }
}

/// Table names are pairwise distinct in a database directory.
pub open spec fn tf_names_unique(tables: Seq<TableFile>) -> bool {
    forall|i: int, j: int|
        0 <= i < j < tables.len() ==> (#[trigger] tables[i]).meta.name@ != (
        #[trigger] tables[j]).meta.name@
}

/// Lookups agree on sequences whose entries carry the same names.
pub proof fn lemma_tf_index_names(a: Seq<TableFile>, b: Seq<TableFile>)
    requires
        a.len() == b.len(),
        forall|k: int| 0 <= k < a.len() ==> (#[trigger] a[k]).meta.name@ == b[k].meta.name@,
    ensures
        forall|nm: Seq<char>| #[trigger] spec_tf_index(a, nm) == spec_tf_index(b, nm),
    decreases a.len(),
{
    if a.len() > 0 {
        assert(forall|k: int|
            0 <= k < a.skip(1).len() ==> (#[trigger] a.skip(1)[k]).meta.name@ == b.skip(
                1,
            )[k].meta.name@);
        lemma_tf_index_names(a.skip(1), b.skip(1));
        assert forall|nm: Seq<char>| #[trigger] spec_tf_index(a, nm) == spec_tf_index(b, nm) by {
            assert(spec_tf_index(a.skip(1), nm) == spec_tf_index(b.skip(1), nm));
        }
    }
}

/// Removing one entry leaves lookups of other names finding the same
/// entry.
pub proof fn lemma_tf_index_remove(s: Seq<TableFile>, j: int, nm: Seq<char>)
    requires
        0 <= j < s.len(),
        s[j].meta.name@ != nm,
    ensures
        (match spec_tf_index(s, nm) {
            Some(i) => {
                let i2 = if i < j { i } else { i - 1 };
                spec_tf_index(s.remove(j), nm) == Some(i2) && s.remove(j)[i2] == s[i]
            },
            None => spec_tf_index(s.remove(j), nm) is None,
        }),
    decreases s.len(),
{
    lemma_tf_index(s, nm);
    if j == 0 {
        assert(s.remove(0) =~= s.skip(1));
        assert(s[0].meta.name@ != nm);
    } else {
        assert(s.remove(j).skip(1) =~= s.skip(1).remove(j - 1));
        assert(s.remove(j)[0] == s[0]);
        if s[0].meta.name@ == nm {
        } else {
            lemma_tf_index_remove(s.skip(1), j - 1, nm);
            match spec_tf_index(s, nm) {
                Some(i) => {
                    assert(spec_tf_index(s.skip(1), nm) == Some(i - 1));
                    assert(s.skip(1)[i - 1] == s[i]);
                },
                None => {},
            }
        }
    }
}

/// Appending an entry leaves earlier lookups unchanged; a fresh name is
/// found at the end.
pub proof fn lemma_tf_index_push(s: Seq<TableFile>, t: TableFile, nm: Seq<char>)
    ensures
        (match spec_tf_index(s, nm) {
            Some(i) => spec_tf_index(s.push(t), nm) == Some(i) && s.push(t)[i] == s[i],
            None => {
                if t.meta.name@ == nm {
                    spec_tf_index(s.push(t), nm) == Some(s.len() as int) && s.push(t)[
                        s.len() as int] == t
                } else {
                    spec_tf_index(s.push(t), nm) is None
                }
            },
        }),
    decreases s.len(),
{
    lemma_tf_index(s, nm);
    if s.len() == 0 {
        assert(s.push(t)[0] == t);
        assert(s.push(t).skip(1) =~= Seq::<TableFile>::empty());
        if t.meta.name@ != nm {
            assert(spec_tf_index(s.push(t).skip(1), nm) is None);
            assert(spec_tf_index(s.push(t), nm) is None);
        }
    } else {
        assert(s.push(t)[0] == s[0]);
        assert(s.push(t).skip(1) =~= s.skip(1).push(t));
        lemma_tf_index_push(s.skip(1), t, nm);
        match spec_tf_index(s, nm) {
            Some(i) => {
                if i > 0 {
                    assert(spec_tf_index(s.skip(1), nm) == Some(i - 1));
                    assert(s.skip(1)[i - 1] == s[i]);
                    assert(s.push(t)[i] == s[i]);
                }
            },
            None => {
                assert(s[0].meta.name@ != nm);
                assert(spec_tf_index(s.skip(1), nm) is None);
                if t.meta.name@ == nm {
                    assert(spec_tf_index(s.skip(1).push(t), nm) == Some(
                        s.skip(1).len() as int,
                    ));
                    assert(spec_tf_index(s.push(t), nm) == Some(s.len() as int));
                    assert(s.skip(1).push(t)[s.skip(1).len() as int] == t);
                    assert(s.push(t)[s.len() as int] == t);
                } else {
                    assert(spec_tf_index(s.skip(1).push(t), nm) is None);
                    assert(spec_tf_index(s.push(t), nm) is None);
                }
            },
        }
    }
}

/// Replacing the entry at one index leaves lookups of other names
/// finding the same entry, provided the replacement keeps its name.
pub proof fn lemma_tf_index_update(s: Seq<TableFile>, j: int, t: TableFile, nm: Seq<char>)
    requires
        0 <= j < s.len(),
        t.meta.name@ == s[j].meta.name@,
        s[j].meta.name@ != nm,
    ensures
        (match spec_tf_index(s, nm) {
            Some(i) => spec_tf_index(s.update(j, t), nm) == Some(i) && s.update(j, t)[i] == s[i],
            None => spec_tf_index(s.update(j, t), nm) is None,
        }),
{
    lemma_tf_index(s, nm);
    let s2 = s.update(j, t);
    assert(forall|k: int| 0 <= k < s.len() ==> (#[trigger] s2[k]).meta.name@ == s[k].meta.name@);
    lemma_tf_index_names(s2, s);
    match spec_tf_index(s, nm) {
        Some(i) => {
            assert(i != j);
            assert(s2[i] == s[i]);
        },
        None => {},
    }
}

#[verifier::spinoff_prover]
proof fn lemma_encode_rows_records(meta: TableMeta, maps: Seq<Map<Seq<char>, Seq<char>>>)
    requires
        meta.wf(),
        forall|k: int| 0 <= k < maps.len() ==> crate::bytescoder::row_canonical(
            meta,
            #[trigger] maps[k],
        ),
    ensures
        spec_encode_rows(meta, maps) is Ok,
        spec_encode_rows(meta, maps)->Ok_0.len() == maps.len() * meta.row_length,
        forall|k: int|
            0 <= k < maps.len() ==> #[trigger] spec_encode_rows(meta, maps)->Ok_0.subrange(
                k * (meta.row_length as int),
                (k + 1) * (meta.row_length as int),
            ) == crate::bytescoder::spec_row_to_bytes(meta, maps[k])->Ok_0,
    decreases maps.len(),
{
    let rl = meta.row_length as int;
    if maps.len() == 0 {
    } else {
        crate::bytescoder::lemma_row_round_trip(meta, maps[0]);
        let b = crate::bytescoder::spec_row_to_bytes(meta, maps[0])->Ok_0;
        lemma_encode_rows_records(meta, maps.skip(1));
        let rest = spec_encode_rows(meta, maps.skip(1))->Ok_0;
        let enc = spec_encode_rows(meta, maps)->Ok_0;
        assert(enc == b + rest);
        assert(enc.len() == maps.len() * rl) by (nonlinear_arith)
            requires
                enc.len() == rl + rest.len(),
                rest.len() == (maps.len() - 1) * rl,
        ;
        assert forall|k: int|
            0 <= k < maps.len() implies #[trigger] enc.subrange(k * rl, (k + 1) * rl)
            == crate::bytescoder::spec_row_to_bytes(meta, maps[k])->Ok_0 by {
            if k == 0 {
                assert(enc.subrange(0, rl) =~= b);
            } else {
                let k2 = k - 1;
                assert(rest.subrange(k2 * rl, (k2 + 1) * rl) == crate::bytescoder::spec_row_to_bytes(
                    meta,
                    maps.skip(1)[k2],
                )->Ok_0);
                assert((k2 + 1) * rl == k * rl && k2 * rl == (k - 1) * rl) by (nonlinear_arith)
                    requires
                        k2 == k - 1,
                ;
                assert(rest.subrange((k - 1) * rl, k * rl) == crate::bytescoder::spec_row_to_bytes(
                    meta,
                    maps.skip(1)[k - 1],
                )->Ok_0);
                assert(0 <= (k - 1) * rl && k * rl <= rest.len() && k * rl - rl == (k - 1) * rl
                    && (k - 1) * rl + rl == k * rl && (k + 1) * rl - rl == k * rl && k * rl + rl
                    == (k + 1) * rl && rl <= k * rl && rl <= (k + 1) * rl <= enc.len())
                    by (nonlinear_arith)
                    requires
                        1 <= k < maps.len(),
                        rl >= 1,
                        rest.len() == (maps.len() - 1) * rl,
                        enc.len() == maps.len() * rl,
                ;
                assert forall|j: int| 0 <= j < rl implies #[trigger] enc[k * rl + j] == rest[(k - 1)
                    * rl + j] by {
                    assert(k * rl + j == rl + ((k - 1) * rl + j));
                    assert(0 <= (k - 1) * rl + j < rest.len());
                    assert(enc[rl + ((k - 1) * rl + j)] == rest[(k - 1) * rl + j]);
                }
                assert(enc.subrange(k * rl, (k + 1) * rl) =~= rest.subrange((k - 1) * rl, k * rl));
                assert(maps.skip(1)[k - 1] == maps[k]);
            }
        }
    }
}

#[verifier::spinoff_prover]
proof fn lemma_decode_encoded_records(
    meta: TableMeta,
    full: Seq<u8>,
    maps: Seq<Map<Seq<char>, Seq<char>>>,
    lo: int,
)
    requires
        meta.wf(),
        forall|k: int| 0 <= k < maps.len() ==> crate::bytescoder::row_canonical(
            meta,
            #[trigger] maps[k],
        ),
        forall|k: int|
            0 <= k < maps.len() ==> #[trigger] spec_record(full, meta.row_length as int, lo + k)
                == crate::bytescoder::spec_row_to_bytes(meta, maps[k])->Ok_0,
    ensures
        spec_decode_records(meta, full, lo, lo + maps.len()) is Ok,
        spec_decode_records(meta, full, lo, lo + maps.len())->Ok_0.len() == maps.len(),
        forall|k: int|
            0 <= k < maps.len() ==> #[trigger] spec_decode_records(
                meta,
                full,
                lo,
                lo + maps.len(),
            )->Ok_0[k] == crate::bytescoder::spec_bytes_to_row(
                meta,
                crate::bytescoder::spec_row_to_bytes(meta, maps[k])->Ok_0,
            )->Ok_0,
    decreases maps.len(),
{
    if maps.len() == 0 {
    } else {
        crate::bytescoder::lemma_row_round_trip(meta, maps[0]);
        assert(spec_record(full, meta.row_length as int, lo + 0)
            == crate::bytescoder::spec_row_to_bytes(meta, maps[0])->Ok_0);
        assert forall|k: int|
            0 <= k < maps.skip(1).len() implies #[trigger] spec_record(
            full,
            meta.row_length as int,
            lo + 1 + k,
        ) == crate::bytescoder::spec_row_to_bytes(meta, maps.skip(1)[k])->Ok_0 by {
            assert(spec_record(full, meta.row_length as int, lo + (k + 1))
                == crate::bytescoder::spec_row_to_bytes(meta, maps[k + 1])->Ok_0);
            assert(maps.skip(1)[k] == maps[k + 1]);
        }
        lemma_decode_encoded_records(meta, full, maps.skip(1), lo + 1);
        let rest = spec_decode_records(meta, full, lo + 1, lo + maps.len())->Ok_0;
        assert(lo + 1 + maps.skip(1).len() == lo + maps.len());
        let r = spec_decode_records(meta, full, lo, lo + maps.len())->Ok_0;
        assert forall|k: int|
            0 <= k < maps.len() implies #[trigger] r[k] == crate::bytescoder::spec_bytes_to_row(
            meta,
            crate::bytescoder::spec_row_to_bytes(meta, maps[k])->Ok_0,
        )->Ok_0 by {
            if k > 0 {
                assert(r[k] == rest[k - 1]);
                assert(rest[k - 1] == crate::bytescoder::spec_bytes_to_row(
                    meta,
                    crate::bytescoder::spec_row_to_bytes(meta, maps.skip(1)[k - 1])->Ok_0,
                )->Ok_0);
                assert(maps.skip(1)[k - 1] == maps[k]);
            }
        }
    }
}

/// Rows encoded onto the end of a table's data and decoded back from
/// the same slots come back with every stored attribute intact: what
/// an append followed by a fetch of those rows yields.
#[verifier::spinoff_prover]
pub proof fn lemma_append_fetch(
    meta: TableMeta,
    bin: Seq<u8>,
    maps: Seq<Map<Seq<char>, Seq<char>>>,
)
    requires
        meta.wf(),
        (bin.len() as int) % (meta.row_length as int) == 0,
        forall|k: int| 0 <= k < maps.len() ==> crate::bytescoder::row_canonical(
            meta,
            #[trigger] maps[k],
        ),
    ensures
        spec_encode_rows(meta, maps) is Ok,
        spec_encode_rows(meta, maps)->Ok_0.len() == maps.len() * meta.row_length,
        ({
            let n0 = bin.len() as int / (meta.row_length as int);
            let full = bin + spec_encode_rows(meta, maps)->Ok_0;
            let r = spec_decode_records(meta, full, n0, n0 + maps.len());
            &&& r is Ok
            &&& r->Ok_0.len() == maps.len()
            &&& (forall|k: int, i: int|
                0 <= k < maps.len() && 1 <= i < meta.attrs_order@.len() ==> (#[trigger] r->Ok_0[k])
                    .contains_key((#[trigger] meta.attrs_order@[i])@) && r->Ok_0[k][meta.attrs_order@[i]@]
                    == maps[k][meta.attrs_order@[i]@])
        }),
{
    let rl = meta.row_length as int;
    let n0 = bin.len() as int / rl;
    lemma_encode_rows_records(meta, maps);
    let enc = spec_encode_rows(meta, maps)->Ok_0;
    let full = bin + enc;
    vstd::arithmetic::div_mod::lemma_fundamental_div_mod(bin.len() as int, rl);
    assert(bin.len() == n0 * rl);
    assert forall|k: int|
        0 <= k < maps.len() implies #[trigger] spec_record(full, rl, n0 + k)
        == crate::bytescoder::spec_row_to_bytes(meta, maps[k])->Ok_0 by {
        assert((n0 + k) * rl == n0 * rl + k * rl && (n0 + k + 1) * rl == n0 * rl + (k + 1) * rl
            && 0 <= k * rl && k * rl + rl == (k + 1) * rl && (k + 1) * rl <= enc.len())
            by (nonlinear_arith)
            requires
                0 <= k < maps.len(),
                rl >= 1,
                enc.len() == maps.len() * rl,
        ;
        assert forall|j: int| 0 <= j < rl implies #[trigger] full[(n0 + k) * rl + j] == enc[k * rl
            + j] by {
            assert((n0 + k) * rl + j == bin.len() + (k * rl + j));
            assert(full[bin.len() + (k * rl + j)] == enc[k * rl + j]);
        }
        assert(full.subrange((n0 + k) * rl, (n0 + k + 1) * rl) =~= enc.subrange(
            k * rl,
            (k + 1) * rl,
        ));
        assert(enc.subrange(k * rl, (k + 1) * rl) == crate::bytescoder::spec_row_to_bytes(
            meta,
            maps[k],
        )->Ok_0);
    }
    lemma_decode_encoded_records(meta, full, maps, n0);
    let r = spec_decode_records(meta, full, n0, n0 + maps.len());
    assert forall|k: int, i: int|
        0 <= k < maps.len() && 1 <= i < meta.attrs_order@.len() implies (#[trigger] r->Ok_0[k])
        .contains_key((#[trigger] meta.attrs_order@[i])@) && r->Ok_0[k][meta.attrs_order@[i]@]
        == maps[k][meta.attrs_order@[i]@] by {
        crate::bytescoder::lemma_row_round_trip(meta, maps[k]);
    }
}

} // verus!
