//! Tables: schema, in-memory rows, and the row-set algebra behind
//! predicate filtering and `SELECT`.

use vstd::prelude::*;
use vstd::seq_lib::group_to_multiset_ensures;
use crate::datatype::DataType;
use crate::field::Field;
use crate::rowset::{RowSet, full_index_set};
use crate::decimal::{CmpResult, dec_cmp, is_dec_text, dec_lt, dec_eq};
use crate::numtext::{spec_parse_i32, parse_i32};
use crate::strutil::{str_eq, str_cmp, str_lt};
use crate::diskinterface::spec_disk_err_text;

verus! {

broadcast use group_to_multiset_ensures;

/// One row: field name to value text, plus storage flags.
#[derive(Debug, Clone)]
pub struct Row {
    pub data: Vec<(String, String)>,
    pub is_dirty: bool,
    pub is_delete: bool,
}

/// The map an association list denotes; later entries override.
pub open spec fn assoc_map(s: Seq<(String, String)>) -> Map<Seq<char>, Seq<char>>
    decreases s.len(),
{
    if s.len() == 0 {
        Map::empty()
    } else {
        assoc_map(s.drop_last()).insert(s.last().0@, s.last().1@)
    }
}

impl Row {
    /// The row as a map from field name to value text.
    pub open spec fn view(&self) -> Map<Seq<char>, Seq<char>> {
        assoc_map(self.data@)
    }

    pub open spec fn keys_unique(&self) -> bool {
        forall|i: int, j: int|
            0 <= i < j < self.data@.len() ==> self.data@[i].0@ != self.data@[j].0@
    }

    pub fn new() -> (r: Row)
        ensures
            r@ == Map::<Seq<char>, Seq<char>>::empty(),
            r.keys_unique(),
            r.is_dirty,
            !r.is_delete,
    {
        Row { data: Vec::new(), is_dirty: true, is_delete: false }
    }

    /// Looks a field's value up.
    pub fn get(&self, key: &str) -> (r: Option<&String>)
        requires
            self.keys_unique(),
        ensures
            r is Some <==> self@.contains_key(key@),
            r is Some ==> r->Some_0@ == self@[key@],
    {
        let n = self.data.len();
        let mut i: usize = 0;
        while i < n
            invariant
                n == self.data@.len(),
                i <= n,
                self.keys_unique(),
                forall|k: int| 0 <= k < i ==> self.data@[k].0@ != key@,
            decreases n - i,
        {
            if str_eq(self.data[i].0.as_str(), key) {
                proof {
                    lemma_assoc_found(self.data@, key@, i as int);
                }
                return Some(&self.data[i].1);
            }
            i += 1;
        }
        proof {
            lemma_assoc_missing(self.data@, key@);
        }
        None
    }

    /// Sets a field's value, replacing any previous one.
    pub fn insert(&mut self, key: String, value: String)
        requires
            old(self).keys_unique(),
        ensures
            final(self).keys_unique(),
            final(self)@ == old(self)@.insert(key@, value@),
            final(self).is_dirty == old(self).is_dirty,
            final(self).is_delete == old(self).is_delete,
    {
        let n = self.data.len();
        let mut i: usize = 0;
        while i < n
            invariant
                n == self.data@.len(),
                i <= n,
                self.keys_unique(),
                self == old(self),
                forall|k: int| 0 <= k < i ==> self.data@[k].0@ != key@,
            decreases n - i,
        {
            if str_eq(self.data[i].0.as_str(), key.as_str()) {
                let ghost before = self.data@;
                self.data.set(i, (key, value));
                proof {
                    lemma_assoc_update(before, i as int, self.data@[i as int]);
                    assert(final(self)@ =~= old(self)@.insert(
                        self.data@[i as int].0@,
                        self.data@[i as int].1@,
                    ));
                }
                return;
            }
            i += 1;
        }
        let ghost before = self.data@;
        self.data.push((key, value));
        proof {
            assert(self.data@.drop_last() =~= before);
        }
    }
}

/// With unique keys, the map agrees with the entry at any found index.
proof fn lemma_assoc_found(s: Seq<(String, String)>, key: Seq<char>, i: int)
    requires
        0 <= i < s.len(),
        s[i].0@ == key,
        forall|a: int, b: int| 0 <= a < b < s.len() ==> s[a].0@ != s[b].0@,
    ensures
        assoc_map(s).contains_key(key),
        assoc_map(s)[key] == s[i].1@,
    decreases s.len(),
{
    if i == s.len() - 1 {
        assert(s.last() == s[i]);
    } else {
        assert(s.last().0@ != key);
        assert(forall|a: int, b: int|
            0 <= a < b < s.drop_last().len() ==> s.drop_last()[a].0@ != s.drop_last()[b].0@);
        lemma_assoc_found(s.drop_last(), key, i);
    }
}

proof fn lemma_assoc_missing(s: Seq<(String, String)>, key: Seq<char>)
    requires
        forall|k: int| 0 <= k < s.len() ==> s[k].0@ != key,
    ensures
        !assoc_map(s).contains_key(key),
    decreases s.len(),
{
    if s.len() > 0 {
        assert(forall|k: int| 0 <= k < s.drop_last().len() ==> s.drop_last()[k].0@ != key);
        lemma_assoc_missing(s.drop_last(), key);
        assert(s.last().0@ != key);
    }
}

/// Updating the entry that holds a key updates the map at that key.
proof fn lemma_assoc_update(s: Seq<(String, String)>, i: int, p: (String, String))
    requires
        0 <= i < s.len(),
        s[i].0@ == p.0@,
        forall|a: int, b: int| 0 <= a < b < s.len() ==> s[a].0@ != s[b].0@,
    ensures
        assoc_map(s.update(i, p)) == assoc_map(s).insert(p.0@, p.1@),
    decreases s.len(),
{
    let t = s.update(i, p);
    if i == s.len() - 1 {
        assert(t.drop_last() =~= s.drop_last());
        assert(t.last() == p);
        assert(assoc_map(t) =~= assoc_map(s).insert(p.0@, p.1@));
    } else {
        assert(t.drop_last() =~= s.drop_last().update(i, p));
        assert(forall|a: int, b: int|
            0 <= a < b < s.drop_last().len() ==> s.drop_last()[a].0@ != s.drop_last()[b].0@);
        lemma_assoc_update(s.drop_last(), i, p);
        assert(t.last() == s.last());
        assert(s.last().0@ != p.0@);
        assert(assoc_map(t) =~= assoc_map(s).insert(p.0@, p.1@));
    }
}

/// The result rows of a `SELECT`.
#[derive(Debug)]
pub struct SelectData {
    pub fields: Vec<String>,
    pub rows: Vec<Vec<String>>,
}

impl SelectData {
    pub fn new() -> (r: SelectData)
        ensures
            r.fields@ == Seq::<String>::empty(),
            r.rows@ == Seq::<Vec<String>>::empty(),
    {
        SelectData { fields: Vec::new(), rows: Vec::new() }
    }
}

#[derive(Debug, Clone)]
pub enum TableError {
    InsertFieldNotExisted(String),
    InsertFieldNotNullMismatched(String),
    InsertFieldDefaultMismatched(String),
    SelectFieldNotExisted(String),
    CausedByFile(crate::diskinterface::DiskError),
    KeyNotExist,
}

/// The error cases of `insert_row`, over views.
pub enum RowInsertError {
    FieldNotExisted(Seq<char>),
    NotNullMismatched(Seq<char>),
    DefaultMismatched(Seq<char>),
    KeyMissing,
}

pub open spec fn insert_err_model(e: TableError) -> RowInsertError {
    match e {
        TableError::InsertFieldNotExisted(n) => RowInsertError::FieldNotExisted(n@),
        TableError::InsertFieldNotNullMismatched(n) => RowInsertError::NotNullMismatched(n@),
        TableError::InsertFieldDefaultMismatched(n) => RowInsertError::DefaultMismatched(n@),
        TableError::SelectFieldNotExisted(n) => RowInsertError::FieldNotExisted(n@),
        TableError::CausedByFile(_) => RowInsertError::KeyMissing,
        TableError::KeyNotExist => RowInsertError::KeyMissing,
    }
}

/// A table: schema, rows, storage flags, and the session-local row set
/// used while a predicate is evaluated.
#[derive(Debug)]
pub struct Table {
    pub name: String,
    pub fields: Vec<Field>,
    pub primary_key: Vec<String>,
    pub foreign_key: Vec<String>,
    pub reference_table: Option<String>,
    pub reference_attr: Option<String>,
    pub rows: Vec<Row>,
    pub is_data_loaded: bool,
    pub is_dirty: bool,
    pub dirty_cursor: u32,
    pub is_delete: bool,
    pub is_predicate_init: bool,
    pub row_set: RowSet,
    pub public_key: i32,
}

/// The first field with the given name.
pub open spec fn spec_field(fields: Seq<Field>, name: Seq<char>) -> Option<Field>
    decreases fields.len(),
{
    if fields.len() == 0 {
        None
    } else if fields[0].name@ == name {
        Some(fields[0])
    } else {
        spec_field(fields.skip(1), name)
    }
}

/// Comparison outcome for two value texts under a column type: whether
/// the left is smaller, and whether they are equal.
pub open spec fn typed_lt(dt: DataType, a: Seq<char>, b: Seq<char>) -> bool {
    match dt {
        DataType::Int => spec_parse_i32(a)->Some_0 < spec_parse_i32(b)->Some_0,
        DataType::Float => dec_lt(a, b),
        DataType::Double => dec_lt(a, b),
        DataType::Char(_) => str_lt(a, b),
        DataType::Varchar(_) => str_lt(a, b),
    }
}

pub open spec fn typed_eq(dt: DataType, a: Seq<char>, b: Seq<char>) -> bool {
    match dt {
        DataType::Int => spec_parse_i32(a)->Some_0 == spec_parse_i32(b)->Some_0,
        DataType::Float => dec_eq(a, b),
        DataType::Double => dec_eq(a, b),
        DataType::Char(_) => a == b,
        DataType::Varchar(_) => a == b,
    }
}

/// Whether `a op b` holds, given the two primitive comparisons.
pub open spec fn op_holds(op: Seq<char>, lt: bool, eq: bool) -> bool {
    if op == "="@ {
        eq
    } else if op == ">"@ {
        !lt && !eq
    } else if op == ">="@ {
        !lt
    } else if op == "<"@ {
        lt
    } else if op == "<="@ {
        lt || eq
    } else if op == "!="@ || op == "<>"@ {
        !eq
    } else {
        false
    }
}

/// The value maps of a table's rows.
pub open spec fn row_maps(rows: Seq<Row>) -> Seq<Map<Seq<char>, Seq<char>>> {
    rows.map(|i: int, r: Row| r@)
}

/// Whether a row satisfies `field op value`.
pub open spec fn row_matches(
    m: Map<Seq<char>, Seq<char>>,
    dt: DataType,
    field: Seq<char>,
    op: Seq<char>,
    value: Seq<char>,
) -> bool {
    op_holds(op, typed_lt(dt, m[field], value), typed_eq(dt, m[field], value))
}

/// Every row's value under the field is well formed for the type.
pub open spec fn column_values_ok(
    maps: Seq<Map<Seq<char>, Seq<char>>>,
    field: Seq<char>,
    dt: DataType,
) -> bool {
    forall|i: int| 0 <= i < maps.len() ==> (#[trigger] maps[i]).contains_key(field) && value_ok(
        dt,
        maps[i][field],
    )
}

/// A value text is well formed for a column type.
pub open spec fn value_ok(dt: DataType, v: Seq<char>) -> bool {
    match dt {
        DataType::Int => spec_parse_i32(v) is Some,
        DataType::Float => is_dec_text(v),
        DataType::Double => is_dec_text(v),
        DataType::Char(_) => true,
        DataType::Varchar(_) => true,
    }
}

impl Table {
    pub open spec fn fields_wf(&self) -> bool {
        forall|i: int, j: int|
            0 <= i < j < self.fields@.len() ==> self.fields@[i].name@ != self.fields@[j].name@
    }

    /// The session row set stays within the table's rows.
    pub open spec fn row_set_wf(&self) -> bool {
        &&& self.row_set.wf()
        &&& forall|x: usize| self.row_set.view().contains(x) ==> x < self.rows@.len()
    }

    pub fn new(name: &str) -> (r: Table)
        ensures
            r.name@ == name@,
            r.fields@.len() == 0,
            r.rows@.len() == 0,
            r.primary_key@.len() == 0,
            r.foreign_key@.len() == 0,
            r.reference_table is None,
            r.reference_attr is None,
            !r.is_data_loaded,
            r.is_dirty,
            r.dirty_cursor == 0,
            !r.is_delete,
            !r.is_predicate_init,
            r.row_set.view() == Set::<usize>::empty(),
            r.public_key == 0,
            r.fields_wf(),
            r.row_set_wf(),
    {
        Table {
            name: name.to_owned(),
            fields: Vec::new(),
            primary_key: Vec::new(),
            foreign_key: Vec::new(),
            reference_table: None,
            reference_attr: None,
            rows: Vec::new(),
            is_data_loaded: false,
            is_dirty: true,
            dirty_cursor: 0,
            is_delete: false,
            is_predicate_init: false,
            row_set: RowSet::new(),
            public_key: 0,
        }
    }

    /// Finds a field by name.
    pub fn get_field(&self, name: &str) -> (r: Option<&Field>)
        ensures
            r is Some <==> spec_field(self.fields@, name@) is Some,
            r is Some ==> *r->Some_0 == spec_field(self.fields@, name@)->Some_0,
    {
        let n = self.fields.len();
        let mut i: usize = 0;
        proof {
            assert(self.fields@.skip(0) =~= self.fields@);
        }
        while i < n
            invariant
                n == self.fields@.len(),
                i <= n,
                spec_field(self.fields@, name@) == spec_field(self.fields@.skip(i as int), name@),
            decreases n - i,
        {
            if str_eq(self.fields[i].name.as_str(), name) {
                proof {
                    assert(self.fields@.skip(i as int)[0] == self.fields@[i as int]);
                }
                return Some(&self.fields[i]);
            }
            proof {
                assert(self.fields@.skip(i as int)[0] == self.fields@[i as int]);
                assert(self.fields@.skip(i as int).skip(1) =~= self.fields@.skip(i + 1));
            }
            i += 1;
        }
        proof {
            assert(self.fields@.skip(n as int).len() == 0);
        }
        None
    }

    /// Adds a field, replacing one of the same name.
    pub fn insert_new_field(&mut self, field: Field)
        requires
            old(self).fields_wf(),
        ensures
            final(self).fields_wf(),
            *final(self) == (Table { fields: final(self).fields, ..*old(self) }),
            spec_field(final(self).fields@, field.name@) == (Some::<Field>(field)),
            forall|n: Seq<char>| n != field.name@ ==> spec_field(final(self).fields@, n)
                == spec_field(old(self).fields@, n),
    {
        let n = self.fields.len();
        let mut i: usize = 0;
        while i < n
            invariant
                n == self.fields@.len(),
                i <= n,
                self == old(self),
                self.fields_wf(),
                forall|k: int| 0 <= k < i ==> self.fields@[k].name@ != field.name@,
            decreases n - i,
        {
            if str_eq(self.fields[i].name.as_str(), field.name.as_str()) {
                let ghost before = self.fields@;
                self.fields.set(i, field);
                proof {
                    lemma_spec_field_update(before, i as int, field);
                }
                return;
            }
            i += 1;
        }
        let ghost before = self.fields@;
        self.fields.push(field);
        proof {
            lemma_spec_field_push(before, field);
        }
    }

    /// The set of all physical row indices.
    pub fn get_all_rows_set(&self) -> (r: RowSet)
        ensures
            r.wf(),
            r.view() == full_index_set(self.rows@.len()),
    {
        RowSet::full(self.rows.len())
    }

    /// Replaces the session row set and latches predicate evaluation.
    pub fn set_row_set(&mut self, set: RowSet)
        ensures
            *final(self) == (Table { row_set: set, is_predicate_init: true, ..*old(self) }),
    {
        self.row_set = set;
        self.is_predicate_init = true;
    }
}

proof fn lemma_spec_field_update(s: Seq<Field>, i: int, f: Field)
    requires
        0 <= i < s.len(),
        s[i].name@ == f.name@,
        forall|a: int, b: int| 0 <= a < b < s.len() ==> s[a].name@ != s[b].name@,
    ensures
        spec_field(s.update(i, f), f.name@) == (Some::<Field>(f)),
        forall|n: Seq<char>| n != f.name@ ==> spec_field(s.update(i, f), n) == spec_field(s, n),
        forall|a: int, b: int|
            0 <= a < b < s.update(i, f).len() ==> s.update(i, f)[a].name@ != s.update(
                i, f)[b].name@,
    decreases s.len(),
{
    let t = s.update(i, f);
    assert(forall|k: int| 0 <= k < t.len() ==> #[trigger] t[k].name@ == s[k].name@);
    if i == 0 {
        assert(t[0] == f);
        assert forall|n: Seq<char>| n != f.name@ implies spec_field(t, n) == spec_field(s, n) by {
            assert(t.skip(1) =~= s.skip(1));
        }
    } else {
        assert(t[0] == s[0]);
        assert(t.skip(1) =~= s.skip(1).update(i - 1, f));
        assert(forall|a: int, b: int|
            0 <= a < b < s.skip(1).len() ==> s.skip(1)[a].name@ != s.skip(1)[b].name@);
        lemma_spec_field_update(s.skip(1), i - 1, f);
        assert(s[0].name@ != f.name@);
        assert(spec_field(t, f.name@) == (Some::<Field>(f)));
        assert forall|n: Seq<char>| n != f.name@ implies spec_field(t, n) == spec_field(s, n) by {
            if s[0].name@ == n {
                assert(spec_field(t, n) == Some(t[0]));
                assert(spec_field(s, n) == Some(s[0]));
            } else {
                assert(spec_field(t, n) == spec_field(t.skip(1), n));
                assert(spec_field(s, n) == spec_field(s.skip(1), n));
                assert(spec_field(s.skip(1).update(i - 1, f), n) == spec_field(s.skip(1), n));
            }
        }
    }
}

proof fn lemma_spec_field_push(s: Seq<Field>, f: Field)
    requires
        forall|k: int| 0 <= k < s.len() ==> s[k].name@ != f.name@,
        forall|a: int, b: int| 0 <= a < b < s.len() ==> s[a].name@ != s[b].name@,
    ensures
        spec_field(s.push(f), f.name@) == (Some::<Field>(f)),
        forall|n: Seq<char>| n != f.name@ ==> spec_field(s.push(f), n) == spec_field(s, n),
        forall|a: int, b: int|
            0 <= a < b < s.push(f).len() ==> s.push(f)[a].name@ != s.push(f)[b].name@,
    decreases s.len(),
{
    let t = s.push(f);
    assert(forall|k: int| 0 <= k < s.len() ==> #[trigger] t[k].name@ == s[k].name@);
    assert(t.last() == f);
    assert forall|a: int, b: int|
        0 <= a < b < t.len() implies t[a].name@ != t[b].name@ by {
        if b == t.len() - 1 {
            assert(t[a].name@ == s[a].name@);
            assert(s[a].name@ != f.name@);
        } else {
            assert(s[a].name@ != s[b].name@);
        }
    }
    if s.len() == 0 {
        assert(t[0] == f);
        assert(spec_field(t, f.name@) == (Some::<Field>(f)));
        assert forall|n: Seq<char>| n != f.name@ implies spec_field(t, n) == spec_field(s, n) by {
            assert(t.skip(1) =~= Seq::<Field>::empty());
            assert(spec_field(t.skip(1), n) is None);
            assert(spec_field(t, n) is None);
            assert(spec_field(s, n) is None);
        }
    } else {
        assert(t[0] == s[0]);
        assert(t.skip(1) =~= s.skip(1).push(f));
        lemma_spec_field_push(s.skip(1), f);
        assert(s[0].name@ != f.name@);
        assert(spec_field(t, f.name@) == (Some::<Field>(f)));
        assert forall|n: Seq<char>| n != f.name@ implies spec_field(t, n) == spec_field(s, n) by {
            if s[0].name@ == n {
                assert(spec_field(t, n) == Some(t[0]));
                assert(spec_field(s, n) == Some(s[0]));
            } else {
                assert(spec_field(t, n) == spec_field(t.skip(1), n));
                assert(spec_field(s, n) == spec_field(s.skip(1), n));
                assert(spec_field(s.skip(1).push(f), n) == spec_field(s.skip(1), n));
            }
        }
    }
}

/// Phase one of a row insert: each given pair must name a field, and a
/// `not_null` field rejects the literal `null`.
pub open spec fn insert_phase1(
    fields: Seq<Field>,
    pairs: Seq<(Seq<char>, Seq<char>)>,
    acc: Map<Seq<char>, Seq<char>>,
) -> Result<Map<Seq<char>, Seq<char>>, RowInsertError>
    decreases pairs.len(),
{
    if pairs.len() == 0 {
        Ok(acc)
    } else {
        let (k, v) = pairs[0];
        match spec_field(fields, k) {
            None => Err(RowInsertError::FieldNotExisted(k)),
            Some(f) => {
                if f.not_null && v == "null"@ {
                    Err(RowInsertError::NotNullMismatched(f.name@))
                } else {
                    insert_phase1(fields, pairs.skip(1), acc.insert(k, v))
                }
            },
        }
    }
}

/// Phase two: fields not given take their default, or the insert fails.
pub open spec fn insert_phase2(
    fields: Seq<Field>,
    acc: Map<Seq<char>, Seq<char>>,
) -> Result<Map<Seq<char>, Seq<char>>, RowInsertError>
    decreases fields.len(),
{
    if fields.len() == 0 {
        Ok(acc)
    } else {
        let f = fields[0];
        if acc.contains_key(f.name@) {
            insert_phase2(fields.skip(1), acc)
        } else {
            match f.default {
                Some(d) => insert_phase2(fields.skip(1), acc.insert(f.name@, d@)),
                None => Err(RowInsertError::DefaultMismatched(f.name@)),
            }
        }
    }
}

pub open spec fn has_encrypted(fields: Seq<Field>) -> bool {
    exists|i: int| 0 <= i < fields.len() && fields[i].encrypt
}

/// The full row-insert model: both phases, then the key check for
/// encrypted fields.
pub open spec fn spec_insert_row(
    fields: Seq<Field>,
    public_key: int,
    pairs: Seq<(Seq<char>, Seq<char>)>,
) -> Result<Map<Seq<char>, Seq<char>>, RowInsertError> {
    match insert_phase1(fields, pairs, Map::empty()) {
        Err(e) => Err(e),
        Ok(m1) => match insert_phase2(fields, m1) {
            Err(e) => Err(e),
            Ok(m2) => {
                if has_encrypted(fields) && public_key == 0 {
                    Err(RowInsertError::KeyMissing)
                } else {
                    Ok(m2)
                }
            },
        },
    }
}

pub open spec fn pair_views(row: Seq<(&str, &str)>) -> Seq<(Seq<char>, Seq<char>)> {
    row.map(|i: int, p: (&str, &str)| (p.0@, p.1@))
}

impl Table {
    /// Inserts one row given as `(field, value)` pairs: unknown fields,
    /// `null` against `not_null`, and missing values without a default
    /// are rejected; encrypted fields need a session key.
    #[verifier::loop_isolation(false)]
    pub fn insert_row(&mut self, row: Vec<(&str, &str)>) -> (r: Result<(), TableError>)
        requires
            old(self).fields_wf(),
        ensures
            match spec_insert_row(old(self).fields@, old(self).public_key as int, pair_views(
                row@,
            )) {
                Ok(m) => {
                    &&& r is Ok
                    &&& final(self).rows@.len() == old(self).rows@.len() + 1
                    &&& final(self).rows@.drop_last() == old(self).rows@
                    &&& final(self).rows@.last()@ == m
                    &&& final(self).rows@.last().is_dirty
                    &&& !final(self).rows@.last().is_delete
                    &&& final(self).rows@.last().keys_unique()
                    &&& *final(self) == (Table { rows: final(self).rows, ..*old(self) })
                },
                Err(e) => {
                    &&& r is Err
                    &&& !(r->Err_0 is SelectFieldNotExisted)
                    &&& !(r->Err_0 is CausedByFile)
                    &&& insert_err_model(r->Err_0) == e
                    &&& *final(self) == *old(self)
                },
            },
    {
        let ghost pv = pair_views(row@);
        let mut new_row = Row::new();
        let n = row.len();
        let mut i: usize = 0;
        proof {
            assert(pv.skip(0) =~= pv);
        }
        while i < n
            invariant
                n == row@.len(),
                i <= n,
                self == old(self),
                new_row.keys_unique(),
                new_row.is_dirty,
                !new_row.is_delete,
                insert_phase1(self.fields@, pv, Map::empty()) == insert_phase1(
                    self.fields@,
                    pv.skip(i as int),
                    new_row@,
                ),
            decreases n - i,
        {
            let (key, value) = (row[i].0, row[i].1);
            proof {
                assert(pv.skip(i as int)[0] == (key@, value@));
                assert(pv.skip(i as int).skip(1) =~= pv.skip(i + 1));
            }
            match self.get_field(key) {
                Some(f) => {
                    if f.not_null && str_eq(value, "null") {
                        return Err(TableError::InsertFieldNotNullMismatched(f.name.clone()));
                    }
                    new_row.insert(key.to_owned(), value.to_owned());
                },
                None => {
                    return Err(TableError::InsertFieldNotExisted(key.to_owned()));
                },
            }
            i += 1;
        }
        proof {
            assert(pv.skip(n as int).len() == 0);
        }
        let ghost m1 = new_row@;
        let nf = self.fields.len();
        let mut j: usize = 0;
        proof {
            assert(self.fields@.skip(0) =~= self.fields@);
        }
        while j < nf
            invariant
                nf == self.fields@.len(),
                j <= nf,
                self == old(self),
                new_row.keys_unique(),
                new_row.is_dirty,
                !new_row.is_delete,
                insert_phase2(self.fields@, m1) == insert_phase2(
                    self.fields@.skip(j as int),
                    new_row@,
                ),
            decreases nf - j,
        {
            proof {
                assert(self.fields@.skip(j as int)[0] == self.fields@[j as int]);
                assert(self.fields@.skip(j as int).skip(1) =~= self.fields@.skip(j + 1));
            }
            let name = self.fields[j].name.clone();
            match new_row.get(name.as_str()) {
                Some(_) => {},
                None => {
                    match &self.fields[j].default {
                        Some(d) => {
                            new_row.insert(name.clone(), d.clone());
                        },
                        None => {
                            return Err(TableError::InsertFieldDefaultMismatched(name));
                        },
                    }
                },
            }
            j += 1;
        }
        proof {
            assert(self.fields@.skip(nf as int).len() == 0);
        }
        let mut k: usize = 0;
        while k < nf
            invariant
                nf == self.fields@.len(),
                k <= nf,
                self == old(self),
                forall|a: int| 0 <= a < k ==> !(#[trigger] self.fields@[a].encrypt
                    && self.public_key == 0),
            decreases nf - k,
        {
            if self.fields[k].encrypt {
                if self.public_key == 0 {
                    return Err(TableError::KeyNotExist);
                }
            }
            k += 1;
        }
        proof {
            if has_encrypted(self.fields@) && self.public_key == 0 {
                let w = choose|w: int| 0 <= w < self.fields@.len() && self.fields@[w].encrypt;
                assert(false);
            }
        }
        let ghost before_rows = self.rows@;
        self.rows.push(new_row);
        proof {
            assert(self.rows@.drop_last() =~= before_rows);
        }
        Ok(())
    }
}

/// Strict lexicographic order on result rows, element by element.
pub open spec fn row_lt(a: Seq<Seq<char>>, b: Seq<Seq<char>>) -> bool
    decreases a.len(),
{
    if b.len() == 0 {
        false
    } else if a.len() == 0 {
        true
    } else if a[0] != b[0] {
        str_lt(a[0], b[0])
    } else {
        row_lt(a.skip(1), b.skip(1))
    }
}

/// Sorted in ascending lexicographic order.
pub open spec fn rows_sorted(s: Seq<Seq<Seq<char>>>) -> bool {
    forall|i: int, j: int| 0 <= i < j < s.len() ==> !row_lt(s[j], s[i])
}

/// Three-way comparison of two result rows.
pub fn row_cmp(a: &Vec<String>, b: &Vec<String>) -> (r: CmpResult)
    ensures
        (r == CmpResult::Less) == row_lt(a.deep_view(), b.deep_view()),
        (r == CmpResult::Equal) == (a.deep_view() == b.deep_view()),
        (r == CmpResult::Greater) == row_lt(b.deep_view(), a.deep_view()),
{
    let ghost av = a.deep_view();
    let ghost bv = b.deep_view();
    proof {
        assert(av.len() == a@.len());
        assert(bv.len() == b@.len());
        assert(forall|k: int| 0 <= k < a@.len() ==> av[k] == a@[k]@);
        assert(forall|k: int| 0 <= k < b@.len() ==> bv[k] == b@[k]@);
        assert(av.skip(0) =~= av);
        assert(bv.skip(0) =~= bv);
    }
    let na = a.len();
    let nb = b.len();
    let n = if na < nb { na } else { nb };
    let mut i: usize = 0;
    while i < n
        invariant
            n == if na < nb { na as int } else { nb as int },
            na == a@.len(),
            nb == b@.len(),
            av == a.deep_view(),
            bv == b.deep_view(),
            av.len() == na,
            bv.len() == nb,
            forall|k: int| 0 <= k < a@.len() ==> av[k] == a@[k]@,
            forall|k: int| 0 <= k < b@.len() ==> bv[k] == b@[k]@,
            i <= n,
            forall|j: int| 0 <= j < i ==> av[j] == bv[j],
            row_lt(av, bv) == row_lt(av.skip(i as int), bv.skip(i as int)),
            row_lt(bv, av) == row_lt(bv.skip(i as int), av.skip(i as int)),
        decreases n - i,
    {
        match str_cmp(a[i].as_str(), b[i].as_str()) {
            CmpResult::Less => {
                proof {
                    assert(av.skip(i as int)[0] == av[i as int]);
                    assert(bv.skip(i as int)[0] == bv[i as int]);
                    assert(av[i as int] != bv[i as int]);
                    assert(row_lt(av.skip(i as int), bv.skip(i as int)));
                    assert(!row_lt(bv.skip(i as int), av.skip(i as int)));
                    assert(av != bv);
                }
                return CmpResult::Less;
            },
            CmpResult::Greater => {
                proof {
                    assert(av.skip(i as int)[0] == av[i as int]);
                    assert(bv.skip(i as int)[0] == bv[i as int]);
                    assert(av[i as int] != bv[i as int]);
                    assert(row_lt(bv.skip(i as int), av.skip(i as int)));
                    assert(!row_lt(av.skip(i as int), bv.skip(i as int)));
                    assert(av != bv);
                }
                return CmpResult::Greater;
            },
            CmpResult::Equal => {
                proof {
                    assert(av.skip(i as int).skip(1) =~= av.skip(i + 1));
                    assert(bv.skip(i as int).skip(1) =~= bv.skip(i + 1));
                }
                i += 1;
            },
        }
    }
    if na < nb {
        proof {
            assert(av.skip(i as int).len() == 0);
            assert(bv.skip(i as int).len() > 0);
            assert(row_lt(av.skip(i as int), bv.skip(i as int)));
            assert(av.len() != bv.len());
        }
        CmpResult::Less
    } else if nb < na {
        proof {
            assert(bv.skip(i as int).len() == 0);
            assert(av.skip(i as int).len() > 0);
            assert(row_lt(bv.skip(i as int), av.skip(i as int)));
            assert(av.len() != bv.len());
        }
        CmpResult::Greater
    } else {
        proof {
            assert(av =~= bv);
            assert(av.skip(i as int).len() == 0);
            assert(bv.skip(i as int).len() == 0);
        }
        CmpResult::Equal
    }
}

pub open spec fn deep_rows(s: Seq<Vec<String>>) -> Seq<Seq<Seq<char>>> {
    s.map(|i: int, v: Vec<String>| v.deep_view())
}

proof fn lemma_deep_rows_is_deep_view(v: Vec<Vec<String>>)
    ensures
        v.deep_view() == deep_rows(v@),
{
    assert(v.deep_view() =~= deep_rows(v@));
}

/// Sorts result rows ascending; the multiset of rows is kept.
#[verifier::loop_isolation(false)]
pub fn sort_string_rows(v: Vec<Vec<String>>) -> (r: Vec<Vec<String>>)
    ensures
        rows_sorted(r.deep_view()),
        r.deep_view().to_multiset() == v.deep_view().to_multiset(),
{
    let mut src = v;
    let mut out: Vec<Vec<String>> = Vec::new();
    let ghost total = src.deep_view().to_multiset();
    proof {
        assert(out.deep_view() =~= Seq::<Seq<Seq<char>>>::empty());
        assert(out.deep_view().to_multiset().add(src.deep_view().to_multiset()) =~= total);
    }
    while src.len() > 0
        invariant
            out.deep_view().to_multiset().add(src.deep_view().to_multiset()) == total,
            rows_sorted(out.deep_view()),
            forall|oi: int, sj: int|
                0 <= oi < out.deep_view().len() && 0 <= sj < src.deep_view().len()
                    ==> !row_lt(#[trigger] src.deep_view()[sj], #[trigger] out.deep_view()[oi]),
        decreases src.len(),
    {
        let ns = src.len();
        let mut m: usize = 0;
        let mut k: usize = 1;
        proof {
            lemma_row_lt_trans(src.deep_view()[0], src.deep_view()[0]);
        }
        while k < ns
            invariant
                m < k <= ns,
                forall|q: int| 0 <= q < k ==> !row_lt(
                    #[trigger] src.deep_view()[q],
                    src.deep_view()[m as int],
                ),
            decreases ns - k,
        {
            let ghost mprev = m as int;
            if matches!(row_cmp(&src[k], &src[m]), CmpResult::Less) {
                m = k;
                proof {
                    lemma_row_lt_trans(src.deep_view()[k as int], src.deep_view()[k as int]);
                    assert forall|q: int| 0 <= q < k + 1 implies !row_lt(
                        #[trigger] src.deep_view()[q],
                        src.deep_view()[m as int],
                    ) by {
                        if q < k {
                            lemma_row_lt_chain(src.deep_view()[q], src.deep_view()[mprev],
                                src.deep_view()[k as int]);
                        }
                    }
                }
            } else {
                proof {
                    assert forall|q: int| 0 <= q < k + 1 implies !row_lt(
                        #[trigger] src.deep_view()[q],
                        src.deep_view()[m as int],
                    ) by {}
                }
            }
            k += 1;
        }
        let ghost old_src = src@;
        let ghost old_out = out@;
        proof {
            assert(src.deep_view() =~= deep_rows(old_src));
            assert(out.deep_view() =~= deep_rows(old_out));
            assert(forall|q: int| 0 <= q < ns ==> !row_lt(
                #[trigger] deep_rows(old_src)[q],
                deep_rows(old_src)[m as int],
            ));
            assert(rows_sorted(deep_rows(old_out)));
            assert(forall|oi: int, sj: int|
                0 <= oi < deep_rows(old_out).len() && 0 <= sj < deep_rows(old_src).len()
                    ==> !row_lt(#[trigger] deep_rows(old_src)[sj],
                    #[trigger] deep_rows(old_out)[oi]));
            assert(deep_rows(old_out).to_multiset().add(deep_rows(old_src).to_multiset())
                == total);
        }
        let x = src.remove(m);
        out.push(x);
        proof {
            lemma_deep_remove(old_src, m as int);
            lemma_deep_push(old_out, x);
            let xd = x.deep_view();
            let osd = deep_rows(old_src);
            let ood = deep_rows(old_out);
            assert(osd[m as int] == xd);
            assert(out.deep_view() =~= ood.push(xd));
            assert(src.deep_view() =~= osd.remove(m as int));
            // multiset bookkeeping
            assert(out.deep_view().to_multiset() =~= ood.to_multiset().insert(xd));
            assert(src.deep_view().to_multiset() =~= osd.to_multiset().remove(xd));
            assert(osd.contains(xd));
            assert(osd.to_multiset().contains(xd));
            assert(out.deep_view().to_multiset().add(src.deep_view().to_multiset())
                =~= ood.to_multiset().add(osd.to_multiset()));
            // the new output stays sorted
            assert forall|a: int, b: int|
                0 <= a < b < out.deep_view().len() implies !row_lt(
                out.deep_view()[b],
                out.deep_view()[a],
            ) by {
                if b == out.deep_view().len() - 1 {
                    assert(out.deep_view()[b] == xd);
                    assert(out.deep_view()[a] == ood[a]);
                    assert(!row_lt(osd[m as int], ood[a]));
                } else {
                    assert(out.deep_view()[a] == ood[a]);
                    assert(out.deep_view()[b] == ood[b]);
                }
            }
            // everything still unsorted is at or above the new output
            assert forall|oi: int, sj: int|
                0 <= oi < out.deep_view().len() && 0 <= sj < src.deep_view().len() implies !row_lt(
                #[trigger] src.deep_view()[sj],
                #[trigger] out.deep_view()[oi],
            ) by {
                let orig = if sj < m { sj } else { sj + 1 };
                assert(src.deep_view()[sj] == osd[orig]);
                if oi == out.deep_view().len() - 1 {
                    assert(out.deep_view()[oi] == xd);
                    assert(!row_lt(osd[orig], osd[m as int]));
                } else {
                    assert(out.deep_view()[oi] == ood[oi]);
                    assert(!row_lt(osd[orig], ood[oi]));
                }
            }
        }
    }
    proof {
        assert(src.deep_view() =~= Seq::<Seq<Seq<char>>>::empty());
        assert(out.deep_view().to_multiset().add(src.deep_view().to_multiset())
            =~= out.deep_view().to_multiset());
    }
    out
}

/// `row_lt` is asymmetric.
proof fn lemma_row_lt_trans(a: Seq<Seq<char>>, b: Seq<Seq<char>>)
    ensures
        !(row_lt(a, b) && row_lt(b, a)),
    decreases a.len(),
{
    if b.len() > 0 && a.len() > 0 {
        if a[0] != b[0] {
            lemma_str_lt_asym(a[0], b[0]);
        } else {
            lemma_row_lt_trans(a.skip(1), b.skip(1));
        }
    }
}

pub proof fn lemma_str_lt_asym(a: Seq<char>, b: Seq<char>)
    ensures
        !(str_lt(a, b) && str_lt(b, a)),
{
    lemma_bytes_lt_asym(vstd::utf8::encode_utf8(a), vstd::utf8::encode_utf8(b));
}

pub proof fn lemma_bytes_lt_asym(a: Seq<u8>, b: Seq<u8>)
    ensures
        !(crate::strutil::bytes_lt(a, b) && crate::strutil::bytes_lt(b, a)),
    decreases a.len(),
{
    if a.len() > 0 && b.len() > 0 && a[0] == b[0] {
        lemma_bytes_lt_asym(a.skip(1), b.skip(1));
    }
}

proof fn lemma_deep_remove(s: Seq<Vec<String>>, i: int)
    requires
        0 <= i < s.len(),
    ensures
        deep_rows(s.remove(i)) == deep_rows(s).remove(i),
{
    assert(deep_rows(s.remove(i)) =~= deep_rows(s).remove(i));
}

proof fn lemma_deep_push(s: Seq<Vec<String>>, x: Vec<String>)
    ensures
        deep_rows(s.push(x)) == deep_rows(s).push(x.deep_view()),
{
    assert(deep_rows(s.push(x)) =~= deep_rows(s).push(x.deep_view()));
}

pub proof fn lemma_bytes_lt_trans(a: Seq<u8>, b: Seq<u8>, c: Seq<u8>)
    requires
        crate::strutil::bytes_lt(a, b),
        crate::strutil::bytes_lt(b, c),
    ensures
        crate::strutil::bytes_lt(a, c),
    decreases a.len() + b.len() + c.len(),
{
    if a.len() > 0 && b.len() > 0 && c.len() > 0 {
        if a[0] == b[0] && b[0] == c[0] {
            lemma_bytes_lt_trans(a.skip(1), b.skip(1), c.skip(1));
        }
    }
}

pub proof fn lemma_str_lt_trans(a: Seq<char>, b: Seq<char>, c: Seq<char>)
    requires
        str_lt(a, b),
        str_lt(b, c),
    ensures
        str_lt(a, c),
{
    lemma_bytes_lt_trans(
        vstd::utf8::encode_utf8(a),
        vstd::utf8::encode_utf8(b),
        vstd::utf8::encode_utf8(c),
    );
}

proof fn lemma_row_lt_transitive(a: Seq<Seq<char>>, b: Seq<Seq<char>>, c: Seq<Seq<char>>)
    requires
        row_lt(a, b),
        row_lt(b, c),
    ensures
        row_lt(a, c),
    decreases a.len() + b.len() + c.len(),
{
    if a.len() > 0 && b.len() > 0 && c.len() > 0 {
        if a[0] == b[0] && b[0] == c[0] {
            lemma_row_lt_transitive(a.skip(1), b.skip(1), c.skip(1));
        } else if a[0] != b[0] && b[0] != c[0] {
            lemma_str_lt_trans(a[0], b[0], c[0]);
            if a[0] == c[0] {
                lemma_str_lt_asym(a[0], b[0]);
                crate::strutil::lemma_views_equal_iff_bytes_equal(b[0], c[0]);
                lemma_bytes_lt_asym(
                    vstd::utf8::encode_utf8(a[0]),
                    vstd::utf8::encode_utf8(b[0]),
                );
            }
        } else if a[0] == b[0] {
            // b[0] != c[0], so a[0] != c[0] and str_lt(a[0], c[0])
        } else {
            // a[0] != b[0], b[0] == c[0]
        }
    }
}

/// If `q` is not below the old minimum and the new one is, `q` is not
/// below the new minimum either.
proof fn lemma_row_lt_chain(q: Seq<Seq<char>>, m_old: Seq<Seq<char>>, m_new: Seq<Seq<char>>)
    requires
        !row_lt(q, m_old),
        row_lt(m_new, m_old),
    ensures
        !row_lt(q, m_new),
{
    if row_lt(q, m_new) {
        lemma_row_lt_transitive(q, m_new, m_old);
    }
}

/// Compares a typed value text with a literal.
fn typed_cmp(dt: DataType, a: &String, b: &str) -> (r: CmpResult)
    requires
        value_ok(dt, a@),
        value_ok(dt, b@),
    ensures
        (r == CmpResult::Less) == typed_lt(dt, a@, b@),
        (r == CmpResult::Equal) == typed_eq(dt, a@, b@),
{
    match dt {
        DataType::Int => {
            let x = match parse_i32(a.as_str()) {
                Some(x) => x,
                None => {
                    proof {
                        assert(false);
                    }
                    0
                },
            };
            let y = match parse_i32(b) {
                Some(y) => y,
                None => {
                    proof {
                        assert(false);
                    }
                    0
                },
            };
            if x < y {
                CmpResult::Less
            } else if x == y {
                CmpResult::Equal
            } else {
                CmpResult::Greater
            }
        },
        DataType::Float => dec_cmp(a.as_str(), b),
        DataType::Double => dec_cmp(a.as_str(), b),
        DataType::Char(_) => str_cmp(a.as_str(), b),
        DataType::Varchar(_) => str_cmp(a.as_str(), b),
    }
}

/// Whether `op` holds of a comparison outcome.
fn op_applies(op: &str, c: CmpResult) -> (r: bool)
    ensures
        r == op_holds(op@, c is Less, c is Equal),
{
    let lt = matches!(c, CmpResult::Less);
    let eq = matches!(c, CmpResult::Equal);
    if str_eq(op, "=") {
        eq
    } else if str_eq(op, ">") {
        !lt && !eq
    } else if str_eq(op, ">=") {
        !lt
    } else if str_eq(op, "<") {
        lt
    } else if str_eq(op, "<=") {
        lt || eq
    } else if str_eq(op, "!=") {
        !eq
    } else if str_eq(op, "<>") {
        !eq
    } else {
        false
    }
}

impl Table {
    /// All rows hold a well-formed value for the named field.
    pub open spec fn column_ok(&self, field: Seq<char>, dt: DataType) -> bool {
        column_values_ok(row_maps(self.rows@), field, dt)
    }

    pub open spec fn rows_keyed(&self) -> bool {
        forall|i: int| 0 <= i < self.rows@.len() ==> (#[trigger] self.rows@[i]).keys_unique()
    }

    /// The row set a filter starts from: the full set until a predicate
    /// evaluation has latched one.
    pub open spec fn working_set(&self) -> Set<usize> {
        if self.is_predicate_init {
            self.row_set.view()
        } else {
            full_index_set(self.rows@.len())
        }
    }

    /// Filters the working row set by `field op value` and stores the
    /// result, without latching `is_predicate_init`.
    #[verifier::loop_isolation(false)]
    pub fn operator_filter_rows(
        &mut self,
        field_name: &str,
        operator: &str,
        value: &str,
    ) -> (r: Result<RowSet, TableError>)
        requires
            old(self).row_set_wf(),
            old(self).rows_keyed(),
            spec_field(old(self).fields@, field_name@) is Some,
            value_ok(spec_field(old(self).fields@, field_name@)->Some_0.datatype, value@),
            old(self).column_ok(
                field_name@,
                spec_field(old(self).fields@, field_name@)->Some_0.datatype,
            ),
        ensures
            r is Ok,
            ({
                let dt = spec_field(old(self).fields@, field_name@)->Some_0.datatype;
                let selected = Set::new(
                    |i: usize|
                        old(self).working_set().contains(i) && i < old(self).rows@.len()
                            && row_matches(old(self).rows@[i as int]@, dt, field_name@, operator@,
                            value@),
                );
                &&& r->Ok_0.wf()
                &&& r->Ok_0.view() == selected
                &&& final(self).row_set.view() == selected
                &&& final(self).row_set.wf()
                &&& final(self).is_predicate_init == old(self).is_predicate_init
                &&& *final(self) == (Table { row_set: final(self).row_set, ..*old(self) })
            }),
    {
        let ghost dt_spec = spec_field(old(self).fields@, field_name@)->Some_0.datatype;
        let dt = match self.get_field(field_name) {
            Some(f) => f.datatype,
            None => {
                proof {
                    assert(false);
                }
                DataType::Int
            },
        };
        let working = if self.is_predicate_init {
            self.row_set.duplicate()
        } else {
            RowSet::full(self.rows.len())
        };
        proof {
            assert(working.view() == self.working_set());
            assert forall|x: usize| working.view().contains(x) implies x < self.rows@.len() by {
                if self.is_predicate_init {
                    assert(self.row_set.view().contains(x));
                }
            }
        }
        let nw = working.len();
        let mut out = RowSet::new();
        let mut k: usize = 0;
        while k < nw
            invariant
                nw == working.seq_view().len(),
                k <= nw,
                out.wf(),
                forall|a: int| 0 <= a < out.seq_view().len() ==> exists|b: int|
                    0 <= b < k && working.seq_view()[b] == #[trigger] out.seq_view()[a],
                forall|x: usize| #[trigger] out.view().contains(x) <==> (
                    working.seq_view().take(k as int).contains(x) && row_matches(
                        self.rows@[x as int]@,
                        dt_spec,
                        field_name@,
                        operator@,
                        value@,
                    ) && x < self.rows@.len()),
            decreases nw - k,
        {
            let i = working.index_at(k);
            proof {
                assert(working.seq_view().contains(working.seq_view()[k as int]));
                assert(working.view().contains(i));
            }
            let row = &self.rows[i];
            proof {
                assert(self.rows@[i as int].keys_unique());
                assert(row_maps(self.rows@)[i as int] == self.rows@[i as int]@);
                assert(self.rows@[i as int]@.contains_key(field_name@));
                assert(value_ok(dt_spec, self.rows@[i as int]@[field_name@]));
            }
            let val = match row.get(field_name) {
                Some(v) => v,
                None => {
                    proof {
                        assert(false);
                    }
                    &self.rows[i].data[0].1
                },
            };
            let c = typed_cmp(dt, val, value);
            let keep = op_applies(operator, c);
            if keep {
                proof {
                    assert forall|a: int|
                        0 <= a < out.seq_view().len() implies out.seq_view()[a] < i by {
                        let b = choose|b: int|
                            0 <= b < k && working.seq_view()[b] == out.seq_view()[a];
                        assert(working.seq_view()[b] < working.seq_view()[k as int]);
                    }
                }
                out.push_ascending(i);
                proof {
                    assert(out.seq_view().last() == i);
                }
            }
            proof {
                assert(working.seq_view().take(k + 1).drop_last() =~= working.seq_view().take(
                    k as int,
                ));
                assert(working.seq_view().take(k + 1).last() == working.seq_view()[k as int]);
                assert forall|x: usize| #[trigger] out.view().contains(x) implies (
                    working.seq_view().take(k + 1).contains(x) && row_matches(
                        self.rows@[x as int]@,
                        dt_spec,
                        field_name@,
                        operator@,
                        value@,
                    ) && x < self.rows@.len()) by {
                    if x != i || !keep {
                        assert(working.seq_view().take(k as int).contains(x));
                        let b = choose|b: int|
                            0 <= b < k && working.seq_view().take(k as int)[b] == x;
                        assert(working.seq_view().take(k + 1)[b] == x);
                    }
                }
                assert forall|x: usize|
                    (working.seq_view().take(k + 1).contains(x) && row_matches(
                        self.rows@[x as int]@,
                        dt_spec,
                        field_name@,
                        operator@,
                        value@,
                    ) && x < self.rows@.len()) implies #[trigger] out.view().contains(x) by {
                    let b = choose|b: int|
                        0 <= b < k + 1 && #[trigger] working.seq_view().take(k + 1)[b] == x;
                    if b < k {
                        assert(working.seq_view().take(k as int)[b] == x);
                        assert(working.seq_view().take(k as int).contains(x));
                    } else {
                        assert(x == i);
                        assert(keep);
                    }
                }
                assert forall|a: int|
                    0 <= a < out.seq_view().len() implies exists|b: int|
                        0 <= b < k + 1 && working.seq_view()[b] == #[trigger] out.seq_view()[a] by {
                    if !keep || a < out.seq_view().len() - 1 {
                    } else {
                        assert(working.seq_view()[k as int] == out.seq_view()[a]);
                    }
                }
            }
            k += 1;
        }
        proof {
            assert(working.seq_view().take(nw as int) =~= working.seq_view());
            let selected = Set::new(
                |i: usize|
                    old(self).working_set().contains(i) && i < old(self).rows@.len()
                        && row_matches(old(self).rows@[i as int]@, dt_spec, field_name@, operator@,
                        value@),
            );
            assert forall|x: usize| #[trigger] out.view().contains(x) implies selected.contains(
                x,
            ) by {
                assert(working.seq_view().contains(x));
                assert(working.view().contains(x));
            }
            assert forall|x: usize| selected.contains(x) implies out.view().contains(x) by {
                assert(working.view().contains(x));
                assert(working.seq_view().contains(x));
            }
            assert(out.view() =~= selected);
        }
        let result = out.duplicate();
        self.row_set = out;
        Ok(result)
    }
}

/// The values of the named fields of one row, or the first missing name.
pub open spec fn select_one(m: Map<Seq<char>, Seq<char>>, names: Seq<Seq<char>>) -> Result<
    Seq<Seq<char>>,
    Seq<char>,
>
    decreases names.len(),
{
    if names.len() == 0 {
        Ok(Seq::empty())
    } else if m.contains_key(names[0]) {
        match select_one(m, names.skip(1)) {
            Ok(rest) => Ok(seq![m[names[0]]] + rest),
            Err(n) => Err(n),
        }
    } else {
        Err(names[0])
    }
}

/// The selected values of the rows at the given indices, in order, or
/// the first missing field name.
pub open spec fn select_rows(
    maps: Seq<Map<Seq<char>, Seq<char>>>,
    idxs: Seq<usize>,
    names: Seq<Seq<char>>,
) -> Result<Seq<Seq<Seq<char>>>, Seq<char>>
    decreases idxs.len(),
{
    if idxs.len() == 0 {
        Ok(Seq::empty())
    } else {
        match select_one(maps[idxs[0] as int], names) {
            Err(n) => Err(n),
            Ok(vals) => match select_rows(maps, idxs.skip(1), names) {
                Err(n) => Err(n),
                Ok(rest) => Ok(seq![vals] + rest),
            },
        }
    }
}

pub open spec fn name_views(names: Seq<String>) -> Seq<Seq<char>> {
    names.map(|i: int, s: String| s@)
}

impl Table {
    /// Projects the requested fields out of the rows in the session row
    /// set (all rows if no predicate was evaluated), sorted ascending.
    #[verifier::loop_isolation(false)]
    pub fn select(&mut self, field_names: Vec<String>) -> (r: Result<SelectData, TableError>)
        requires
            old(self).row_set_wf(),
            old(self).rows_keyed(),
        ensures
            final(self).is_predicate_init,
            final(self).row_set.wf(),
            final(self).row_set.view() == old(self).working_set(),
            *final(self) == (Table {
                row_set: final(self).row_set,
                is_predicate_init: true,
                ..*old(self)
            }),
            ({
                let idxs = if old(self).is_predicate_init {
                    old(self).row_set.seq_view()
                } else {
                    Seq::new(old(self).rows@.len(), |k: int| k as usize)
                };
                match select_rows(row_maps(old(self).rows@), idxs, name_views(field_names@)) {
                    Ok(vals) => {
                        &&& r is Ok
                        &&& r->Ok_0.fields@ == field_names@
                        &&& rows_sorted(r->Ok_0.rows.deep_view())
                        &&& r->Ok_0.rows.deep_view().to_multiset() == vals.to_multiset()
                    },
                    Err(n) => {
                        &&& r is Err
                        &&& r->Err_0 is SelectFieldNotExisted
                        &&& insert_err_model(r->Err_0) == RowInsertError::FieldNotExisted(n)
                    },
                }
            }),
    {
        let ghost names = name_views(field_names@);
        if !self.is_predicate_init {
            let full = RowSet::full(self.rows.len());
            proof {
                assert(full.seq_view() =~= Seq::new(self.rows@.len(), |k: int| k as usize));
            }
            self.row_set = full;
            self.is_predicate_init = true;
        }
        let ghost idxs = self.row_set.seq_view();
        proof {
            assert forall|x: usize| self.row_set.view().contains(x)
                implies x < self.rows@.len() by {}
        }
        let nk = self.row_set.len();
        let mut out_rows: Vec<Vec<String>> = Vec::new();
        let mut k: usize = 0;
        proof {
            assert(idxs.skip(0) =~= idxs);
            assert(out_rows.deep_view() =~= Seq::<Seq<Seq<char>>>::empty());
            match select_rows(row_maps(self.rows@), idxs, names) {
                Ok(rest) => {
                    assert(out_rows.deep_view() + rest =~= rest);
                },
                Err(_) => {},
            }
        }
        while k < nk
            invariant
                nk == idxs.len(),
                k <= nk,
                idxs == self.row_set.seq_view(),
                select_rows(row_maps(self.rows@), idxs, names) == (match select_rows(
                    row_maps(self.rows@),
                    idxs.skip(k as int),
                    names,
                ) {
                    Ok(rest) => Ok::<Seq<Seq<Seq<char>>>, Seq<char>>(
                        out_rows.deep_view() + rest,
                    ),
                    Err(n) => Err(n),
                }),
            decreases nk - k,
        {
            let i = self.row_set.index_at(k);
            proof {
                assert(self.row_set.seq_view().contains(i));
                assert(self.row_set.view().contains(i));
                assert(idxs.skip(k as int)[0] == i);
                assert(idxs.skip(k as int).skip(1) =~= idxs.skip(k + 1));
            }
            let row = &self.rows[i];
            let nn = field_names.len();
            let mut vals: Vec<String> = Vec::new();
            let mut j: usize = 0;
            proof {
                assert(names.skip(0) =~= names);
                assert(vals.deep_view() =~= Seq::<Seq<char>>::empty());
                match select_one(self.rows@[i as int]@, names) {
                    Ok(rest) => {
                        assert(vals.deep_view() + rest =~= rest);
                    },
                    Err(_) => {},
                }
            }
            while j < nn
                invariant
                    nn == field_names@.len(),
                    j <= nn,
                    names == name_views(field_names@),
                    i < self.rows@.len(),
                    row == &self.rows@[i as int],
                    row.keys_unique(),
                    select_one(self.rows@[i as int]@, names) == (match select_one(
                        self.rows@[i as int]@,
                        names.skip(j as int),
                    ) {
                        Ok(rest) => Ok::<Seq<Seq<char>>, Seq<char>>(vals.deep_view() + rest),
                        Err(n) => Err(n),
                    }),
                decreases nn - j,
            {
                proof {
                    assert(names.skip(j as int)[0] == field_names@[j as int]@);
                    assert(names.skip(j as int).skip(1) =~= names.skip(j + 1));
                }
                let name = &field_names[j];
                match row.get(name.as_str()) {
                    Some(v) => {
                        let ghost before = vals.deep_view();
                        vals.push(v.clone());
                        proof {
                            assert(vals.deep_view() =~= before.push(v@));
                            assert(before.push(v@) =~= before + seq![v@]);
                            assert(self.rows@[i as int]@[names.skip(j as int)[0]] == v@);
                            match select_one(self.rows@[i as int]@, names.skip(j + 1)) {
                                Ok(rest) => {
                                    assert(before + (seq![v@] + rest) =~= (before + seq![v@])
                                        + rest);
                                },
                                Err(_) => {},
                            }
                        }
                    },
                    None => {
                        proof {
                            assert(select_one(self.rows@[i as int]@, names) == Err::<
                                Seq<Seq<char>>,
                                Seq<char>,
                            >(names.skip(j as int)[0]));
                            assert(row_maps(self.rows@)[i as int] == self.rows@[i as int]@);
                            assert(select_rows(row_maps(self.rows@), idxs, names) == Err::<
                                Seq<Seq<Seq<char>>>,
                                Seq<char>,
                            >(names.skip(j as int)[0]));
                        }
                        return Err(TableError::SelectFieldNotExisted(name.clone()));
                    },
                }
                j += 1;
            }
            proof {
                assert(names.skip(nn as int).len() == 0);
                assert(vals.deep_view() + Seq::<Seq<char>>::empty() =~= vals.deep_view());
                assert(select_one(self.rows@[i as int]@, names) == Ok::<Seq<Seq<char>>, Seq<char>>(
                    vals.deep_view(),
                ));
                assert(row_maps(self.rows@)[i as int] == self.rows@[i as int]@);
            }
            let ghost before_rows = out_rows.deep_view();
            let ghost vd = vals.deep_view();
            out_rows.push(vals);
            proof {
                lemma_deep_push(out_rows@.drop_last(), out_rows@.last());
                assert(out_rows@.drop_last().push(out_rows@.last()) =~= out_rows@);
                assert(out_rows.deep_view() =~= deep_rows(out_rows@));
                assert(deep_rows(out_rows@.drop_last()) =~= before_rows);
                assert(out_rows.deep_view() =~= before_rows.push(vd));
                match select_rows(row_maps(self.rows@), idxs.skip(k + 1), names) {
                    Ok(rest) => {
                        assert(before_rows + (seq![vd] + rest) =~= before_rows.push(vd) + rest);
                    },
                    Err(_) => {},
                }
            }
            k += 1;
        }
        proof {
            assert(idxs.skip(nk as int).len() == 0);
            assert(out_rows.deep_view() + Seq::<Seq<Seq<char>>>::empty() =~= out_rows.deep_view());
            assert(select_rows(row_maps(self.rows@), idxs, names) == Ok::<
                Seq<Seq<Seq<char>>>,
                Seq<char>,
            >(out_rows.deep_view()));
        }
        let sorted = sort_string_rows(out_rows);
        Ok(SelectData { fields: field_names, rows: sorted })
    }
}

impl Row {
    /// A copy with equal data and flags.
    pub fn duplicate(&self) -> (r: Row)
        ensures
            r.data@ == self.data@,
            r@ == self@,
            r.keys_unique() == self.keys_unique(),
            r.is_dirty == self.is_dirty,
            r.is_delete == self.is_delete,
    {
        let n = self.data.len();
        let mut data: Vec<(String, String)> = Vec::new();
        let mut i: usize = 0;
        while i < n
            invariant
                n == self.data@.len(),
                i <= n,
                data@ =~= self.data@.take(i as int),
            decreases n - i,
        {
            data.push((self.data[i].0.clone(), self.data[i].1.clone()));
            proof {
                assert(data@ =~= self.data@.take(i + 1));
            }
            i += 1;
        }
        proof {
            assert(data@ =~= self.data@);
        }
        Row { data, is_dirty: self.is_dirty, is_delete: self.is_delete }
    }
}

/// Rows with equal data and flags, index by index.
pub open spec fn rows_equiv(a: Seq<Row>, b: Seq<Row>) -> bool {
    &&& a.len() == b.len()
    &&& forall|i: int| 0 <= i < a.len() ==> (#[trigger] a[i]).data@ == b[i].data@
        && a[i].is_dirty == b[i].is_dirty && a[i].is_delete == b[i].is_delete
}

pub fn clone_string_vec(v: &Vec<String>) -> (r: Vec<String>)
    ensures
        r@ == v@,
{
    let n = v.len();
    let mut out: Vec<String> = Vec::new();
    let mut i: usize = 0;
    while i < n
        invariant
            n == v@.len(),
            i <= n,
            out@ =~= v@.take(i as int),
        decreases n - i,
    {
        out.push(v[i].clone());
        proof {
            assert(out@ =~= v@.take(i + 1));
        }
        i += 1;
    }
    proof {
        assert(out@ =~= v@);
    }
    out
}

impl Table {
    /// A working copy of the table: equal schema, equivalent rows, and
    /// the same session state.
    pub fn duplicate(&self) -> (r: Table)
        ensures
            r.name@ == self.name@,
            r.fields@ == self.fields@,
            r.primary_key@ == self.primary_key@,
            r.foreign_key@ == self.foreign_key@,
            r.reference_table == self.reference_table,
            r.reference_attr == self.reference_attr,
            rows_equiv(r.rows@, self.rows@),
            r.is_data_loaded == self.is_data_loaded,
            r.is_dirty == self.is_dirty,
            r.dirty_cursor == self.dirty_cursor,
            r.is_delete == self.is_delete,
            r.is_predicate_init == self.is_predicate_init,
            r.row_set.seq_view() == self.row_set.seq_view(),
            r.public_key == self.public_key,
    {
        let nf = self.fields.len();
        let mut fields: Vec<Field> = Vec::new();
        let mut i: usize = 0;
        while i < nf
            invariant
                nf == self.fields@.len(),
                i <= nf,
                fields@ =~= self.fields@.take(i as int),
            decreases nf - i,
        {
            fields.push(self.fields[i].duplicate());
            proof {
                assert(fields@ =~= self.fields@.take(i + 1));
            }
            i += 1;
        }
        proof {
            assert(fields@ =~= self.fields@);
        }
        let nr = self.rows.len();
        let mut rows: Vec<Row> = Vec::new();
        let mut i: usize = 0;
        while i < nr
            invariant
                nr == self.rows@.len(),
                i <= nr,
                rows@.len() == i,
                forall|k: int| 0 <= k < i ==> (#[trigger] rows@[k]).data@ == self.rows@[k].data@
                    && rows@[k].is_dirty == self.rows@[k].is_dirty && rows@[k].is_delete
                    == self.rows@[k].is_delete,
            decreases nr - i,
        {
            rows.push(self.rows[i].duplicate());
            i += 1;
        }
        Table {
            name: self.name.clone(),
            fields,
            primary_key: clone_string_vec(&self.primary_key),
            foreign_key: clone_string_vec(&self.foreign_key),
            reference_table: match &self.reference_table {
                Some(s) => Some(s.clone()),
                None => None,
            },
            reference_attr: match &self.reference_attr {
                Some(s) => Some(s.clone()),
                None => None,
            },
            rows,
            is_data_loaded: self.is_data_loaded,
            is_dirty: self.is_dirty,
            dirty_cursor: self.dirty_cursor,
            is_delete: self.is_delete,
            is_predicate_init: self.is_predicate_init,
            row_set: self.row_set.duplicate(),
            public_key: self.public_key,
        }
    }
}

/// The message text of a row-level error, as shown to clients.
pub open spec fn table_err_text(e: RowInsertError) -> Seq<char> {
    match e {
        RowInsertError::FieldNotExisted(n) => "Insert Error: the table doesn't have `"@ + n
            + "` attribute."@,
        RowInsertError::NotNullMismatched(n) => "Insert Error: "@ + n + " could not be null"@,
        RowInsertError::DefaultMismatched(n) => "Insert Error: "@ + n
            + " has no default value. Need to declare the value."@,
        RowInsertError::KeyMissing => "encrypt error: public key is not existed"@,
    }
}

pub open spec fn select_err_text(n: Seq<char>) -> Seq<char> {
    "Selected field not exists: "@ + n
}

impl TableError {
    /// The message shown to clients for this error.
    pub fn message(&self) -> (r: String)
        ensures
            (match self {
                TableError::SelectFieldNotExisted(n) => r@ == select_err_text(n@),
                TableError::CausedByFile(e) => r@ == "error caused by file: "@
                    + spec_disk_err_text(*e),
                _ => r@ == table_err_text(insert_err_model(*self)),
            }),
    {
        match self {
            TableError::CausedByFile(e) => String::from_str("error caused by file: ").concat(
                e.message().as_str(),
            ),
            TableError::InsertFieldNotExisted(n) => String::from_str(
                "Insert Error: the table doesn't have `",
            ).concat(n.as_str()).concat("` attribute."),
            TableError::InsertFieldNotNullMismatched(n) => String::from_str(
                "Insert Error: ",
            ).concat(n.as_str()).concat(" could not be null"),
            TableError::InsertFieldDefaultMismatched(n) => String::from_str(
                "Insert Error: ",
            ).concat(n.as_str()).concat(" has no default value. Need to declare the value."),
            TableError::SelectFieldNotExisted(n) => String::from_str(
                "Selected field not exists: ",
            ).concat(n.as_str()),
            TableError::KeyNotExist => String::from_str(
                "encrypt error: public key is not existed",
            ),
        }
    }
}

/// Ascending by the byte order of the strings.
pub open spec fn names_sorted(s: Seq<Seq<char>>) -> bool {
    forall|i: int, j: int| 0 <= i < j < s.len() ==> !str_lt(s[j], s[i])
}

/// If `q` is not below the old minimum and the new one is, `q` is not
/// below the new minimum either.
proof fn lemma_str_lt_chain(q: Seq<char>, m_old: Seq<char>, m_new: Seq<char>)
    requires
        !str_lt(q, m_old),
        str_lt(m_new, m_old),
    ensures
        !str_lt(q, m_new),
{
    if str_lt(q, m_new) {
        lemma_str_lt_trans(q, m_new, m_old);
    }
}

/// Sorts strings ascending by byte order; the multiset of strings is
/// kept.
#[verifier::loop_isolation(false)]
pub fn sort_strings(v: Vec<String>) -> (r: Vec<String>)
    ensures
        names_sorted(r.deep_view()),
        r.deep_view().to_multiset() == v.deep_view().to_multiset(),
{
    let mut src = v;
    let mut out: Vec<String> = Vec::new();
    let ghost total = src.deep_view().to_multiset();
    proof {
        assert(out.deep_view() =~= Seq::<Seq<char>>::empty());
        assert(out.deep_view().to_multiset().add(src.deep_view().to_multiset()) =~= total);
    }
    while src.len() > 0
        invariant
            out.deep_view().to_multiset().add(src.deep_view().to_multiset()) == total,
            names_sorted(out.deep_view()),
            forall|oi: int, sj: int|
                0 <= oi < out.deep_view().len() && 0 <= sj < src.deep_view().len()
                    ==> !str_lt(#[trigger] src.deep_view()[sj], #[trigger] out.deep_view()[oi]),
        decreases src.len(),
    {
        let ns = src.len();
        let mut m: usize = 0;
        let mut k: usize = 1;
        proof {
            lemma_str_lt_asym(src.deep_view()[0], src.deep_view()[0]);
        }
        while k < ns
            invariant
                m < k <= ns,
                forall|q: int| 0 <= q < k ==> !str_lt(
                    #[trigger] src.deep_view()[q],
                    src.deep_view()[m as int],
                ),
            decreases ns - k,
        {
            let ghost mprev = m as int;
            if matches!(str_cmp(src[k].as_str(), src[m].as_str()), CmpResult::Less) {
                m = k;
                proof {
                    lemma_str_lt_asym(src.deep_view()[k as int], src.deep_view()[k as int]);
                    assert forall|q: int| 0 <= q < k + 1 implies !str_lt(
                        #[trigger] src.deep_view()[q],
                        src.deep_view()[m as int],
                    ) by {
                        if q < k {
                            lemma_str_lt_chain(src.deep_view()[q], src.deep_view()[mprev],
                                src.deep_view()[k as int]);
                        }
                    }
                }
            } else {
                proof {
                    assert forall|q: int| 0 <= q < k + 1 implies !str_lt(
                        #[trigger] src.deep_view()[q],
                        src.deep_view()[m as int],
                    ) by {}
                }
            }
            k += 1;
        }
        let ghost old_src = src@;
        let ghost old_out = out@;
        proof {
            assert(src.deep_view() =~= name_views(old_src));
            assert(out.deep_view() =~= name_views(old_out));
            assert(forall|q: int| 0 <= q < ns ==> !str_lt(
                #[trigger] name_views(old_src)[q],
                name_views(old_src)[m as int],
            ));
            assert(names_sorted(name_views(old_out)));
            assert(forall|oi: int, sj: int|
                0 <= oi < name_views(old_out).len() && 0 <= sj < name_views(old_src).len()
                    ==> !str_lt(#[trigger] name_views(old_src)[sj],
                    #[trigger] name_views(old_out)[oi]));
            assert(name_views(old_out).to_multiset().add(name_views(old_src).to_multiset())
                == total);
        }
        let x = src.remove(m);
        out.push(x);
        proof {
            let xd = x@;
            let osd = name_views(old_src);
            let ood = name_views(old_out);
            assert(osd[m as int] == xd);
            assert(out.deep_view() =~= ood.push(xd));
            assert(src.deep_view() =~= osd.remove(m as int));
            assert(out.deep_view().to_multiset() =~= ood.to_multiset().insert(xd));
            assert(src.deep_view().to_multiset() =~= osd.to_multiset().remove(xd));
            assert(osd.contains(xd));
            assert(osd.to_multiset().contains(xd));
            assert(out.deep_view().to_multiset().add(src.deep_view().to_multiset())
                =~= ood.to_multiset().add(osd.to_multiset()));
            assert forall|a: int, b: int|
                0 <= a < b < out.deep_view().len() implies !str_lt(
                out.deep_view()[b],
                out.deep_view()[a],
            ) by {
                if b == out.deep_view().len() - 1 {
                    assert(out.deep_view()[b] == xd);
                    assert(out.deep_view()[a] == ood[a]);
                    assert(!str_lt(osd[m as int], ood[a]));
                } else {
                    assert(out.deep_view()[a] == ood[a]);
                    assert(out.deep_view()[b] == ood[b]);
                }
            }
            assert forall|oi: int, sj: int|
                0 <= oi < out.deep_view().len() && 0 <= sj < src.deep_view().len() implies !str_lt(
                #[trigger] src.deep_view()[sj],
                #[trigger] out.deep_view()[oi],
            ) by {
                let orig = if sj < m { sj } else { sj + 1 };
                assert(src.deep_view()[sj] == osd[orig]);
                if oi == out.deep_view().len() - 1 {
                    assert(out.deep_view()[oi] == xd);
                    assert(!str_lt(osd[orig], osd[m as int]));
                } else {
                    assert(out.deep_view()[oi] == ood[oi]);
                    assert(!str_lt(osd[orig], ood[oi]));
                }
            }
        }
    }
    proof {
        assert(src.deep_view() =~= Seq::<Seq<char>>::empty());
        assert(out.deep_view().to_multiset().add(src.deep_view().to_multiset())
            =~= out.deep_view().to_multiset());
    }
    out
}

/// A name is found among fields exactly when it is one of their names.
pub proof fn lemma_spec_field_contains(fields: Seq<Field>, n: Seq<char>)
    ensures
        spec_field(fields, n) is Some <==> name_views(field_names_of(fields)).contains(n),
        spec_field(fields, n) is Some <==> (exists|k: int|
            0 <= k < fields.len() && (#[trigger] fields[k].name@) == n),
    decreases fields.len(),
{
    if fields.len() > 0 {
        lemma_spec_field_contains(fields.skip(1), n);
        if fields[0].name@ == n {
            assert(fields[0].name@ == n);
        } else {
            assert forall|k: int|
                0 <= k < fields.len() && (#[trigger] fields[k].name@) == n implies (exists|k2: int|
                0 <= k2 < fields.skip(1).len() && (#[trigger] fields.skip(1)[k2].name@) == n) by {
                assert(fields.skip(1)[k - 1].name@ == n);
            }
            if exists|k2: int|
                0 <= k2 < fields.skip(1).len() && (#[trigger] fields.skip(1)[k2].name@) == n {
                let k2 = choose|k2: int|
                    0 <= k2 < fields.skip(1).len() && (#[trigger] fields.skip(1)[k2].name@) == n;
                assert(fields[k2 + 1].name@ == n);
            }
        }
        assert(name_views(field_names_of(fields)).contains(n) <==> (exists|k: int|
            0 <= k < fields.len() && (#[trigger] fields[k].name@) == n)) by {
            assert(forall|k: int|
                0 <= k < fields.len() ==> name_views(field_names_of(fields))[k] == (
                #[trigger] fields[k].name@));
            if name_views(field_names_of(fields)).contains(n) {
                let k = choose|k: int|
                    0 <= k < name_views(field_names_of(fields)).len() && name_views(
                        field_names_of(fields),
                    )[k] == n;
                assert(fields[k].name@ == n);
            }
        }
    } else {
        assert(name_views(field_names_of(fields)).len() == 0);
    }
}

/// The names of a field list, in order.
pub open spec fn field_names_of(fields: Seq<Field>) -> Seq<String> {
    fields.map(|i: int, f: Field| f.name)
}

impl Table {
    /// Takes a loaded catalog record as this table's schema; the table
    /// is then clean.
    pub fn format_meta(&mut self, meta: crate::diskinterface::TableMeta)
        ensures
            final(self).fields@ == meta.attrs@,
            final(self).primary_key == meta.primary_key,
            final(self).foreign_key == meta.foreign_key,
            final(self).reference_table == meta.reference_table,
            final(self).reference_attr == meta.reference_attr,
            !final(self).is_dirty,
            *final(self) == (Table {
                fields: final(self).fields,
                primary_key: final(self).primary_key,
                foreign_key: final(self).foreign_key,
                reference_table: final(self).reference_table,
                reference_attr: final(self).reference_attr,
                is_dirty: false,
                ..*old(self)
            }),
    {
        let crate::diskinterface::TableMeta {
            primary_key,
            foreign_key,
            reference_table,
            reference_attr,
            attrs,
            ..
        } = meta;
        self.fields = attrs;
        self.primary_key = primary_key;
        self.foreign_key = foreign_key;
        self.reference_table = reference_table;
        self.reference_attr = reference_attr;
        self.is_dirty = false;
    }

    /// Loads one table's schema from storage.
    pub fn load_meta(
        base: &crate::diskinterface::FileBase,
        username: &str,
        db_name: &str,
        table_name: &str,
    ) -> (r: Result<Table, TableError>)
        ensures
            (match crate::diskinterface::spec_locate(*base, username@, db_name@, table_name@) {
                None => r == Err::<Table, TableError>(TableError::CausedByFile(
                    crate::diskinterface::spec_locate_err(
                        *base,
                        username@,
                        db_name@,
                        table_name@,
                    ),
                )),
                Some((ui, di, ti)) => {
                    let m = base.users@[ui].dbs@[di].tables@[ti].meta;
                    &&& r is Ok
                    &&& r->Ok_0.name@ == table_name@
                    &&& r->Ok_0.fields@ == m.attrs@
                    &&& r->Ok_0.primary_key.deep_view() == m.primary_key.deep_view()
                    &&& r->Ok_0.rows@.len() == 0
                    &&& !r->Ok_0.is_dirty
                    &&& !r->Ok_0.is_predicate_init
                    &&& r->Ok_0.row_set_wf()
                },
            }),
    {
        let meta = match crate::diskinterface::DiskInterface::load_table_meta(
            base,
            username,
            db_name,
            table_name,
        ) {
            Ok(m) => m,
            Err(e) => {
                return Err(TableError::CausedByFile(e));
            },
        };
        let mut table = Table::new(table_name);
        let ghost pkd = meta.primary_key.deep_view();
        table.format_meta(meta);
        proof {
            assert(table.primary_key.deep_view() == pkd);
        }
        Ok(table)
    }

    /// Marks the rows of a storage range as loaded; the range read
    /// itself goes through the storage interface.
    pub fn load_rows_data(&mut self, _username: &str, _db_name: &str) -> (r: Result<
        (),
        TableError,
    >)
        ensures
            r is Ok,
            *final(self) == (Table { is_data_loaded: true, ..*old(self) }),
    {
        self.is_data_loaded = true;
        Ok(())
    }

    /// Marks all rows as loaded.
    pub fn load_all_rows_data(&mut self, _username: &str, _db_name: &str) -> (r: Result<
        (),
        TableError,
    >)
        ensures
            r is Ok,
            *final(self) == (Table { is_data_loaded: true, ..*old(self) }),
    {
        self.is_data_loaded = true;
        Ok(())
    }
}

} // verus!
