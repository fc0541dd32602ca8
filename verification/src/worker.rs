//! The session worker: owns a user and a database, applies DDL and DML,
//! and evaluates `SELECT` queries over a virtual table.

use vstd::prelude::*;
use crate::database::{Database, spec_table_index, lemma_table_index_range};
use crate::query::{QueryData, Node, PredTree};
use crate::rowset::{RowSet, full_index_set, sorted_strict};
use crate::table::{Table, TableError, Row, row_maps, row_matches, spec_field, value_ok,
    column_values_ok, select_rows, name_views, rows_sorted, clone_string_vec, rows_equiv,
    insert_phase1, insert_phase2, has_encrypted, spec_insert_row, RowInsertError, pair_views};
use crate::jsonout::{select_data_to_json, spec_select_json};
use crate::datatype::DataType;
use crate::strutil::str_eq;

verus! {

#[derive(Debug)]
pub struct User {
    pub name: String,
    pub key: i32,
}

impl User {
    pub fn new(username: &str) -> (r: User)
        ensures
            r.name@ == username@,
            r.key == 0,
    {
        User { name: username.to_owned(), key: 0 }
    }
}

/// A session: the user, the active database, the current query, and the
/// last `SELECT` result as JSON.
#[derive(Debug)]
pub struct SQL {
    pub user: User,
    pub database: Database,
    pub querydata: QueryData,
    pub result_json: String,
}

#[derive(Debug)]
pub enum SQLError {
    SemanticError(String),
}

impl SQLError {
    /// The message shown to clients for this error.
    pub fn message(&self) -> (r: String)
        ensures
            (match self {
                SQLError::SemanticError(s) => r@ == "semantic error: "@ + s@,
            }),
    {
        match self {
            SQLError::SemanticError(s) => {
                String::from_str("semantic error: ").concat(s.as_str())
            },
        }
    }
}

/// The selection a predicate tree denotes, evaluated bottom-up: each
/// comparison filters the full row set, `and`/`or` intersect/unite,
/// `not` complements against the full set.
pub open spec fn eval_tree(
    maps: Seq<Map<Seq<char>, Seq<char>>>,
    fields: Seq<crate::field::Field>,
    t: PredTree,
) -> Set<usize>
    decreases t,
{
    match t {
        PredTree::Leaf(_) => Set::empty(),
        PredTree::Unary(n, r) => {
            if n == "not"@ {
                full_index_set(maps.len()).difference(eval_tree(maps, fields, *r))
            } else {
                Set::empty()
            }
        },
        PredTree::Binary(op, l, r) => {
            if op == "and"@ {
                eval_tree(maps, fields, *l).intersect(eval_tree(maps, fields, *r))
            } else if op == "or"@ {
                eval_tree(maps, fields, *l).union(eval_tree(maps, fields, *r))
            } else {
                match (*l, *r) {
                    (PredTree::Leaf(a), PredTree::Leaf(b)) => {
                        let dt = spec_field(fields, a)->Some_0.datatype;
                        Set::new(
                            |i: usize|
                                (i as nat) < maps.len() && row_matches(
                                    maps[i as int],
                                    dt,
                                    a,
                                    op,
                                    b,
                                ),
                        )
                    },
                    _ => Set::empty(),
                }
            }
        },
    }
}

/// A predicate tree the evaluator accepts: comparisons sit over two
/// leaves naming an existing column and a well-formed literal.
pub open spec fn pred_wf(
    fields: Seq<crate::field::Field>,
    maps: Seq<Map<Seq<char>, Seq<char>>>,
    t: PredTree,
) -> bool
    decreases t,
{
    match t {
        PredTree::Leaf(_) => true,
        PredTree::Unary(n, r) => n == "not"@ && pred_wf(fields, maps, *r),
        PredTree::Binary(op, l, r) => {
            if op == "and"@ || op == "or"@ {
                pred_wf(fields, maps, *l) && pred_wf(fields, maps, *r)
            } else {
                match (*l, *r) {
                    (PredTree::Leaf(a), PredTree::Leaf(b)) => {
                        &&& spec_field(fields, a) is Some
                        &&& value_ok(spec_field(fields, a)->Some_0.datatype, b)
                        &&& column_values_ok(maps, a, spec_field(fields, a)->Some_0.datatype)
                    },
                    _ => false,
                }
            }
        },
    }
}

pub open spec fn opt_node_model(n: Option<Box<Node>>) -> Option<PredTree> {
    match n {
        Some(b) => Some((*b).model()),
        None => None,
    }
}

/// Evaluates a predicate tree over a virtual table, post-order. Each
/// evaluated node collapses to a leaf carrying its row set.
#[verifier::loop_isolation(false)]
pub fn table_predicate(tb: &mut Table, node: Option<Box<Node>>) -> (r: Result<
    Option<Box<Node>>,
    SQLError,
>)
    requires
        old(tb).row_set_wf(),
        old(tb).rows_keyed(),
        old(tb).fields_wf(),
        !old(tb).is_predicate_init,
        (match opt_node_model(node) {
            Some(t) => pred_wf(old(tb).fields@, row_maps(old(tb).rows@), t),
            None => true,
        }),
    ensures
        r is Ok,
        *final(tb) == (Table { row_set: final(tb).row_set, ..*old(tb) }),
        final(tb).row_set_wf(),
        (r->Ok_0 is Some <==> node is Some),
        node is Some ==> {
            let res = *r->Ok_0->Some_0;
            &&& res.set.wf()
            &&& res.set.view() == eval_tree(
                row_maps(old(tb).rows@),
                old(tb).fields@,
                (*node->Some_0).model(),
            )
            &&& forall|x: usize| res.set.view().contains(x) ==> x < old(tb).rows@.len()
            &&& res.left is None && res.right is None
            &&& res.root == (*node->Some_0).root
        },
    decreases node,
{
    let boxed = match node {
        None => {
            return Ok(None);
        },
        Some(b) => b,
    };
    let ghost t0 = (*boxed).model();
    let Node { root, left, right, set } = *boxed;
    let ghost left0 = left;
    let ghost right0 = right;
    proof {
        match (left0, right0) {
            (Some(l), Some(rr)) => {
                assert(t0 == PredTree::Binary(root@, Box::new((*l).model()), Box::new(
                    (*rr).model(),
                )));
            },
            (None, Some(rr)) => {
                assert(t0 == PredTree::Unary(root@, Box::new((*rr).model())));
            },
            (Some(l), None) => {
                assert(t0 == PredTree::Leaf(root@));
            },
            (None, None) => {
                assert(t0 == PredTree::Leaf(root@));
            },
        }
    }
    if left.is_some() && right.is_none() {
        // A node with only a left child never arises from the parser and
        // selects nothing.
        return Ok(Some(Box::new(Node { root, left: None, right: None, set: RowSet::new() })));
    }
    let le = match table_predicate(tb, left) {
        Ok(x) => x,
        Err(e) => {
            proof {
                assert(false);
            }
            return Err(e);
        },
    };
    let re = match table_predicate(tb, right) {
        Ok(x) => x,
        Err(e) => {
            proof {
                assert(false);
            }
            return Err(e);
        },
    };
    match (le, re) {
        (Some(l), Some(rr)) => {
            let lnode = *l;
            let rnode = *rr;
            if str_eq(root.as_str(), "and") {
                let newset = lnode.set.intersect(&rnode.set);
                Ok(Some(Box::new(Node { root, left: None, right: None, set: newset })))
            } else if str_eq(root.as_str(), "or") {
                let newset = lnode.set.union(&rnode.set, tb.rows.len());
                Ok(Some(Box::new(Node { root, left: None, right: None, set: newset })))
            } else {
                proof {
                    assert((*left0->Some_0).model() is Leaf);
                    assert((*right0->Some_0).model() is Leaf);
                    assert(lnode.root@ == (*left0->Some_0).root@);
                    assert(rnode.root@ == (*right0->Some_0).root@);
                }
                let newset = match tb.operator_filter_rows(
                    lnode.root.as_str(),
                    root.as_str(),
                    rnode.root.as_str(),
                ) {
                    Ok(s) => s,
                    Err(_) => {
                        proof {
                            assert(false);
                        }
                        RowSet::new()
                    },
                };
                proof {
                    let maps = row_maps(old(tb).rows@);
                    let a = (*left0->Some_0).root@;
                    let b = (*right0->Some_0).root@;
                    let dt = spec_field(old(tb).fields@, a)->Some_0.datatype;
                    assert(newset.view() =~= eval_tree(maps, old(tb).fields@, t0)) by {
                        assert forall|i: usize| newset.view().contains(i) implies eval_tree(
                            maps,
                            old(tb).fields@,
                            t0,
                        ).contains(i) by {
                            assert(row_maps(old(tb).rows@)[i as int] == old(tb).rows@[i as int]@);
                        }
                        assert forall|i: usize| eval_tree(maps, old(tb).fields@, t0).contains(
                            i,
                        ) implies newset.view().contains(i) by {
                            assert(row_maps(old(tb).rows@)[i as int] == old(tb).rows@[i as int]@);
                            assert(full_index_set(old(tb).rows@.len()).contains(i));
                        }
                    }
                }
                Ok(Some(Box::new(Node { root, left: None, right: None, set: newset })))
            }
        },
        (None, Some(rr)) => {
            let rnode = *rr;
            if str_eq(root.as_str(), "not") {
                let newset = rnode.set.complement(tb.rows.len());
                proof {
                    assert(newset.view() =~= full_index_set(old(tb).rows@.len()).difference(
                        rnode.set.view(),
                    ));
                }
                Ok(Some(Box::new(Node { root, left: None, right: None, set: newset })))
            } else {
                proof {
                    assert(false);
                }
                Ok(Some(Box::new(Node { root, left: None, right: None, set: RowSet::new() })))
            }
        },
        (Some(_), None) => {
            proof {
                assert(false);
            }
            Ok(Some(Box::new(Node { root, left: None, right: None, set: RowSet::new() })))
        },
        (None, None) => {
            Ok(Some(Box::new(Node { root, left: None, right: None, set: RowSet::new() })))
        },
    }
}

impl SQL {
    pub fn new(username: &str) -> (r: Result<SQL, SQLError>)
        ensures
            r is Ok,
            r->Ok_0.user.name@ == username@,
            r->Ok_0.user.key == 0,
            r->Ok_0.database.name@ == Seq::<char>::empty(),
            r->Ok_0.database.tables@.len() == 0,
            r->Ok_0.querydata.predicate is None,
            r->Ok_0.result_json@ == Seq::<char>::empty(),
    {
        proof {
            reveal_strlit("");
        }
        Ok(
            SQL {
                user: User::new(username),
                database: Database::new(""),
                querydata: QueryData::new(),
                result_json: String::new(),
            },
        )
    }

    /// Replaces the active database with a fresh empty one.
    pub fn create_database(&mut self, db_name: &str) -> (r: Result<(), SQLError>)
        ensures
            r is Ok,
            final(self).database.name@ == db_name@,
            final(self).database.tables@.len() == 0,
            final(self).database.is_dirty,
            !final(self).database.is_delete,
            *final(self) == (SQL { database: final(self).database, ..*old(self) }),
    {
        self.database = Database::new(db_name);
        Ok(())
    }

    /// Adds a table to the active database.
    pub fn create_table(&mut self, table: Table) -> (r: Result<(), SQLError>)
        ensures
            r is Ok,
            *final(self) == (SQL { database: final(self).database, ..*old(self) }),
            final(self).database.name == old(self).database.name,
            final(self).database.is_dirty == old(self).database.is_dirty,
            final(self).database.is_delete == old(self).database.is_delete,
            (match spec_table_index(old(self).database.tables@, table.name@) {
                Some(i) => final(self).database.tables@ == old(self).database.tables@.update(
                    i,
                    table,
                ),
                None => final(self).database.tables@ == old(self).database.tables@.push(table),
            }),
            (forall|k: int|
                0 <= k < final(self).database.tables@.len() ==> (
                #[trigger] final(self).database.tables@[k]) == table || (0 <= k < old(
                    self,
                ).database.tables@.len() && final(self).database.tables@[k] == old(
                    self,
                ).database.tables@[k])),
    {
        let ghost tval = table;
        self.database.insert_new_table(table);
        proof {
            lemma_table_index_range(old(self).database.tables@, tval.name@);
            match spec_table_index(old(self).database.tables@, tval.name@) {
                Some(i) => {
                    assert(0 <= i < old(self).database.tables@.len());
                    assert(self.database.tables@ == old(self).database.tables@.update(i, tval));
                    assert forall|k: int|
                        0 <= k < self.database.tables@.len() implies (
                    #[trigger] self.database.tables@[k]) == tval || (0 <= k < old(
                        self,
                    ).database.tables@.len() && self.database.tables@[k] == old(
                        self,
                    ).database.tables@[k]) by {
                        if k == i {
                            assert(self.database.tables@[k] == tval);
                        } else {
                            assert(self.database.tables@[k] == old(self).database.tables@[k]);
                        }
                    }
                },
                None => {
                    assert(self.database.tables@ == old(self).database.tables@.push(tval));
                    assert forall|k: int|
                        0 <= k < self.database.tables@.len() implies (
                    #[trigger] self.database.tables@[k]) == tval || (0 <= k < old(
                        self,
                    ).database.tables@.len() && self.database.tables@[k] == old(
                        self,
                    ).database.tables@[k]) by {
                        if k == old(self).database.tables@.len() {
                            assert(self.database.tables@[k] == tval);
                        } else {
                            assert(self.database.tables@[k] == old(self).database.tables@[k]);
                        }
                    }
                },
            }
        }
        Ok(())
    }
}

/// One `(field, value)` pairing per attribute.
pub open spec fn zip_pairs(attrs: Seq<Seq<char>>, row: Seq<Seq<char>>) -> Seq<
    (Seq<char>, Seq<char>),
> {
    Seq::new(attrs.len(), |i: int| (attrs[i], row[i]))
}

/// Inserting rows one at a time: the value maps of the rows that went
/// in, and the error that stopped the rest, if any.
pub open spec fn insert_many(
    fields: Seq<crate::field::Field>,
    pk: int,
    attrs: Seq<Seq<char>>,
    rows: Seq<Seq<Seq<char>>>,
) -> (Seq<Map<Seq<char>, Seq<char>>>, Option<RowInsertError>)
    decreases rows.len(),
{
    if rows.len() == 0 {
        (Seq::empty(), None)
    } else {
        match spec_insert_row(fields, pk, zip_pairs(attrs, rows[0])) {
            Err(e) => (Seq::empty(), Some(e)),
            Ok(m) => {
                let (ms, e) = insert_many(fields, pk, attrs, rows.skip(1));
                (seq![m] + ms, e)
            },
        }
    }
}

impl SQL {
    /// Inserts the given value rows into the named table, taking the
    /// session key as the table's public key if it has none. Rows are
    /// applied in order; the first failing row stops the rest, with the
    /// earlier ones kept.
    #[verifier::loop_isolation(false)]
    pub fn insert_into_table(
        &mut self,
        table_name: &str,
        attrs: Vec<String>,
        rows: Vec<Vec<String>>,
    ) -> (r: Result<(), SQLError>)
        requires
            forall|i: int| 0 <= i < rows@.len() ==> (#[trigger] rows@[i])@.len() == attrs@.len(),
            (match spec_table_index(old(self).database.tables@, table_name@) {
                Some(ti) => old(self).database.tables@[ti].fields_wf(),
                None => true,
            }),
        ensures
            (match spec_table_index(old(self).database.tables@, table_name@) {
                None => {
                    &&& r is Err
                    &&& (match r->Err_0 {
                        SQLError::SemanticError(m) => m@ == "table not exists"@,
                    })
                    &&& *final(self) == *old(self)
                },
                Some(ti) => {
                    let t0 = old(self).database.tables@[ti];
                    let pk = if t0.public_key == 0 {
                        old(self).user.key
                    } else {
                        t0.public_key
                    };
                    let outcome = insert_many(
                        t0.fields@,
                        pk as int,
                        attrs.deep_view(),
                        rows.deep_view(),
                    );
                    let t1 = final(self).database.tables@[ti];
                    &&& *final(self) == (SQL { database: final(self).database, ..*old(self) })
                    &&& final(self).database.name == old(self).database.name
                    &&& final(self).database.is_dirty == old(self).database.is_dirty
                    &&& final(self).database.is_delete == old(self).database.is_delete
                    &&& final(self).database.tables@ == old(self).database.tables@.update(ti, t1)
                    &&& t1 == (Table { rows: t1.rows, public_key: pk, ..t0 })
                    &&& t1.rows@.len() == t0.rows@.len() + outcome.0.len()
                    &&& t1.rows@.take(t0.rows@.len() as int) == t0.rows@
                    &&& (forall|k: int| 0 <= k < outcome.0.len() ==> {
                        let nr = #[trigger] t1.rows@[t0.rows@.len() + k];
                        nr@ == outcome.0[k] && nr.is_dirty && !nr.is_delete && nr.keys_unique()
                    })
                    &&& (match outcome.1 {
                        None => r is Ok,
                        Some(e) => {
                            &&& r is Err
                            &&& (match r->Err_0 {
                                SQLError::SemanticError(m) => m@ == crate::table::table_err_text(
                                    e,
                                ),
                            })
                        },
                    })
                },
            }),
    {
        let ti = match self.database.table_index(table_name) {
            Some(i) => i,
            None => {
                return Err(SQLError::SemanticError(String::from_str("table not exists")));
            },
        };
        proof {
            lemma_table_index_range(self.database.tables@, table_name@);
        }
        let ghost t0 = self.database.tables@[ti as int];
        let mut t = self.database.tables.remove(ti);
        if t.public_key == 0 {
            t.public_key = self.user.key;
        }
        let ghost pk = t.public_key;
        let ghost attrsd = attrs.deep_view();
        let ghost rowsd = rows.deep_view();
        proof {
            assert(attrsd.len() == attrs@.len());
            assert(forall|k: int| 0 <= k < attrs@.len() ==> attrsd[k] == attrs@[k]@);
            assert(rowsd.len() == rows@.len());
            assert(forall|k: int| 0 <= k < rows@.len() ==> rowsd[k] == rows@[k].deep_view());
            assert(rowsd.skip(0) =~= rowsd);
        }
        let ghost oldlen = t.rows@.len();
        let nr = rows.len();
        let mut ri: usize = 0;
        let mut failed: Option<SQLError> = None;
        while ri < nr && failed.is_none()
            invariant
                nr == rows@.len(),
                ri <= nr,
                attrsd == attrs.deep_view(),
                rowsd == rows.deep_view(),
                t.fields@ == t0.fields@,
                t.fields_wf(),
                t == (Table { rows: t.rows, public_key: pk, ..t0 }),
                t.rows@.len() >= oldlen,
                t.rows@.take(oldlen as int) == t0.rows@,
                (match failed {
                    None => {
                        let full = insert_many(t0.fields@, pk as int, attrsd, rowsd);
                        let rest = insert_many(
                            t0.fields@,
                            pk as int,
                            attrsd,
                            rowsd.skip(ri as int),
                        );
                        &&& full.0 == Seq::new(
                            (t.rows@.len() - oldlen) as nat,
                            |k: int| t.rows@[oldlen + k]@,
                        ) + rest.0
                        &&& full.1 == rest.1
                    },
                    Some(e) => {
                        let full = insert_many(t0.fields@, pk as int, attrsd, rowsd);
                        &&& full.0 == Seq::new(
                            (t.rows@.len() - oldlen) as nat,
                            |k: int| t.rows@[oldlen + k]@,
                        )
                        &&& full.1 is Some
                        &&& (match e {
                            SQLError::SemanticError(m) => m@ == crate::table::table_err_text(
                                full.1->Some_0,
                            ),
                        })
                    },
                }),
                forall|k: int| oldlen <= k < t.rows@.len() ==> {
                    let nrow = #[trigger] t.rows@[k];
                    nrow.is_dirty && !nrow.is_delete && nrow.keys_unique()
                },
            decreases nr - ri, (if failed is None { 1int } else { 0int }),
        {
            let na = attrs.len();
            let mut pairs: Vec<(&str, &str)> = Vec::new();
            let mut j: usize = 0;
            while j < na
                invariant
                    na == attrs@.len(),
                    j <= na,
                    ri < nr,
                    nr == rows@.len(),
                    attrsd == attrs.deep_view(),
                    rowsd == rows.deep_view(),
                    pairs@.len() == j,
                    forall|k: int| 0 <= k < j ==> (#[trigger] pairs@[k]).0@ == attrsd[k]
                        && pairs@[k].1@ == rowsd[ri as int][k],
                decreases na - j,
            {
                pairs.push((attrs[j].as_str(), rows[ri][j].as_str()));
                j += 1;
            }
            proof {
                assert(pair_views(pairs@) =~= zip_pairs(attrsd, rowsd[ri as int]));
                assert(rowsd.skip(ri as int)[0] == rowsd[ri as int]);
                assert(rowsd.skip(ri as int).skip(1) =~= rowsd.skip(ri + 1));
            }
            let ghost rows_before = t.rows@;
            proof {
                assert(t.public_key == pk);
            }
            match t.insert_row(pairs) {
                Ok(_) => {
                    proof {
                        assert(t.rows@.drop_last() == rows_before);
                        assert forall|k: int| oldlen <= k < t.rows@.len() implies {
                            let nrow = #[trigger] t.rows@[k];
                            nrow.is_dirty && !nrow.is_delete && nrow.keys_unique()
                        } by {
                            if k < t.rows@.len() - 1 {
                                assert(t.rows@[k] == rows_before[k]);
                            }
                        }
                        assert(Seq::new(
                            (t.rows@.len() - oldlen) as nat,
                            |k: int| t.rows@[oldlen + k]@,
                        ) =~= Seq::new(
                            (rows_before.len() - oldlen) as nat,
                            |k: int| rows_before[oldlen + k]@,
                        ).push(t.rows@.last()@));
                        let rest1 = insert_many(
                            t0.fields@,
                            pk as int,
                            attrsd,
                            rowsd.skip(ri + 1),
                        );
                        assert(Seq::new(
                            (rows_before.len() - oldlen) as nat,
                            |k: int| rows_before[oldlen + k]@,
                        ) + (seq![t.rows@.last()@] + rest1.0) =~= Seq::new(
                            (t.rows@.len() - oldlen) as nat,
                            |k: int| t.rows@[oldlen + k]@,
                        ) + rest1.0);
                        assert(t.rows@.take(oldlen as int) =~= rows_before.take(oldlen as int));
                    }
                    ri += 1;
                },
                Err(e) => {
                    let msg = e.message();
                    failed = Some(SQLError::SemanticError(msg));
                    proof {
                        assert(Seq::new(
                            (t.rows@.len() - oldlen) as nat,
                            |k: int| t.rows@[oldlen + k]@,
                        ) + Seq::<Map<Seq<char>, Seq<char>>>::empty() =~= Seq::new(
                            (t.rows@.len() - oldlen) as nat,
                            |k: int| t.rows@[oldlen + k]@,
                        ));
                    }
                },
            }
        }
        proof {
            if failed is None {
                assert(rowsd.skip(nr as int).len() == 0);
                assert(Seq::new(
                    (t.rows@.len() - oldlen) as nat,
                    |k: int| t.rows@[oldlen + k]@,
                ) + Seq::<Map<Seq<char>, Seq<char>>>::empty() =~= Seq::new(
                    (t.rows@.len() - oldlen) as nat,
                    |k: int| t.rows@[oldlen + k]@,
                ));
            }
        }
        let ghost tables_mid = self.database.tables@;
        self.database.tables.insert(ti, t);
        proof {
            assert(self.database.tables@ =~= old(self).database.tables@.update(ti as int, t));
        }
        match failed {
            Some(e) => Err(e),
            None => Ok(()),
        }
    }
}


/// Decides whether a value text fits a column type.
fn exec_value_ok(dt: DataType, v: &str) -> (r: bool)
    ensures
        r == value_ok(dt, v@),
{
    match dt {
        DataType::Int => crate::numtext::parse_i32(v).is_some(),
        DataType::Float => crate::decimal::check_dec_text(v),
        DataType::Double => crate::decimal::check_dec_text(v),
        DataType::Char(_) => true,
        DataType::Varchar(_) => true,
    }
}

/// Decides whether every row holds a well-formed value for the field.
#[verifier::loop_isolation(false)]
fn check_column(tb: &Table, field: &str, dt: DataType) -> (r: bool)
    requires
        tb.rows_keyed(),
    ensures
        r == column_values_ok(row_maps(tb.rows@), field@, dt),
{
    let n = tb.rows.len();
    let mut i: usize = 0;
    while i < n
        invariant
            n == tb.rows@.len(),
            i <= n,
            forall|k: int| 0 <= k < i ==> (#[trigger] row_maps(tb.rows@)[k]).contains_key(field@)
                && value_ok(dt, row_maps(tb.rows@)[k][field@]),
        decreases n - i,
    {
        proof {
            assert(row_maps(tb.rows@)[i as int] == tb.rows@[i as int]@);
        }
        match tb.rows[i].get(field) {
            Some(v) => {
                if !exec_value_ok(dt, v.as_str()) {
                    proof {
                        assert(!column_values_ok(row_maps(tb.rows@), field@, dt));
                    }
                    return false;
                }
            },
            None => {
                proof {
                    assert(!column_values_ok(row_maps(tb.rows@), field@, dt));
                }
                return false;
            },
        }
        i += 1;
    }
    true
}

/// Decides whether the evaluator accepts a predicate tree over a table.
pub fn check_predicate(tb: &Table, node: &Node) -> (r: bool)
    requires
        tb.rows_keyed(),
    ensures
        r == pred_wf(tb.fields@, row_maps(tb.rows@), node.model()),
    decreases *node,
{
    match (&node.left, &node.right) {
        (Some(l), Some(rr)) => {
            if str_eq(node.root.as_str(), "and") || str_eq(node.root.as_str(), "or") {
                let okl = check_predicate(tb, l);
                let okr = check_predicate(tb, rr);
                okl && okr
            } else {
                // both children must be leaves
                if rr.right.is_some() || l.right.is_some() {
                    proof {
                        let lm = (**l).model();
                        let rm = (**rr).model();
                        assert(node.model() == PredTree::Binary(node.root@, Box::new(lm),
                            Box::new(rm)));
                        if rr.right is Some {
                            assert(!(rm is Leaf));
                        } else {
                            assert(!(lm is Leaf));
                        }
                        assert(!pred_wf(tb.fields@, row_maps(tb.rows@), node.model()));
                    }
                    return false;
                }
                proof {
                    assert((**l).model() == PredTree::Leaf((**l).root@));
                    assert((**rr).model() == PredTree::Leaf((**rr).root@));
                }
                match tb.get_field(l.root.as_str()) {
                    Some(f) => {
                        let dt = f.datatype;
                        exec_value_ok(dt, rr.root.as_str()) && check_column(
                            tb,
                            l.root.as_str(),
                            dt,
                        )
                    },
                    None => false,
                }
            }
        },
        (None, Some(rr)) => str_eq(node.root.as_str(), "not") && check_predicate(tb, rr),
        (Some(_), None) => true,
        (None, None) => true,
    }
}

/// The single-table `SELECT` requirements: the target exists, is well
/// formed, and any predicate fits its schema.
pub open spec fn select_requires(s: SQL) -> bool {
    &&& s.querydata.tables@.len() >= 1
    &&& (match spec_table_index(s.database.tables@, s.querydata.tables@[0]@) {
        Some(ti) => {
            let t = s.database.tables@[ti];
            &&& t.fields_wf()
            &&& t.rows_keyed()
            &&& t.row_set_wf()
            &&& !t.is_predicate_init
        },
        None => true,
    })
}

impl SQL {
    /// Runs the current `SELECT`: materializes the virtual table,
    /// evaluates the predicate, projects the fields, and stores the
    /// sorted result as JSON in `result_json`.
    pub fn select(&mut self) -> (r: Result<(), SQLError>)
        requires
            select_requires(*old(self)),
        ensures
            (match spec_table_index(
                old(self).database.tables@,
                old(self).querydata.tables@[0]@,
            ) {
                None => {
                    &&& r is Err
                    &&& (match r->Err_0 {
                        SQLError::SemanticError(m) => m@ == "table not exists"@,
                    })
                    &&& *final(self) == *old(self)
                },
                Some(ti) => {
                    let multi = old(self).querydata.tables@.len() > 1;
                    let joined = old(self).querydata.joins@.len() > 0;
                    if multi && joined {
                        &&& r is Err
                        &&& (match r->Err_0 {
                            SQLError::SemanticError(m) => m@
                                == "where and join on clause cannot be together"@,
                        })
                        &&& *final(self) == *old(self)
                    } else {
                        let t = old(self).database.tables@[ti];
                        let maps = if multi || joined {
                            Seq::<Map<Seq<char>, Seq<char>>>::empty()
                        } else {
                            row_maps(t.rows@)
                        };
                        let flds = if multi || joined { Seq::empty() } else { t.fields@ };
                        let sel = match old(self).querydata.predicate {
                            Some(p) => eval_tree(maps, flds, (*p).model()),
                            None => full_index_set(maps.len()),
                        };
                        let idxs = crate::rowset::asc_seq_of(sel, maps.len());
                        let names = name_views(old(self).querydata.fields@);
                        if (match old(self).querydata.predicate {
                            Some(p) => !pred_wf(flds, maps, (*p).model()),
                            None => false,
                        }) {
                            &&& r is Err
                            &&& (match r->Err_0 {
                                SQLError::SemanticError(m) => m@ == "invalid predicate"@,
                            })
                            &&& *final(self) == *old(self)
                        } else {
                        &&& *final(self) == (SQL {
                            querydata: final(self).querydata,
                            result_json: final(self).result_json,
                            ..*old(self)
                        })
                        &&& final(self).querydata.fields@ == old(self).querydata.fields@
                        &&& final(self).querydata.tables@ == old(self).querydata.tables@
                        &&& (match select_rows(maps, idxs, names) {
                            Ok(vals) => {
                                &&& r is Ok
                                &&& exists|sorted: Seq<Seq<Seq<char>>>| {
                                    &&& rows_sorted(sorted)
                                    &&& sorted.to_multiset() == vals.to_multiset()
                                    &&& final(self).result_json@ == spec_select_json(
                                        names,
                                        sorted,
                                    )
                                }
                            },
                            Err(n) => {
                                &&& r is Err
                                &&& (match r->Err_0 {
                                    SQLError::SemanticError(m) => m@
                                        == crate::table::select_err_text(n),
                                })
                                &&& final(self).result_json == old(self).result_json
                            },
                        })
                        }
                    }
                },
            }),
    {
        let tname = self.querydata.tables[0].clone();
        let ti = match self.database.table_index(tname.as_str()) {
            Some(i) => i,
            None => {
                return Err(SQLError::SemanticError(String::from_str("table not exists")));
            },
        };
        proof {
            lemma_table_index_range(self.database.tables@, tname@);
        }
        let multi = self.querydata.tables.len() > 1;
        let joined = self.querydata.joins.len() > 0;
        if multi && joined {
            return Err(
                SQLError::SemanticError(
                    String::from_str("where and join on clause cannot be together"),
                ),
            );
        }
        let ghost t0 = self.database.tables@[ti as int];
        let mut vt = if multi || joined {
            Table::new("")
        } else {
            self.database.tables[ti].duplicate()
        };
        vt.is_data_loaded = true;
        let ghost maps = row_maps(vt.rows@);
        let ghost flds = vt.fields@;
        proof {
            if !(multi || joined) {
                assert(row_maps(vt.rows@) =~= row_maps(t0.rows@)) by {
                    assert(forall|k: int|
                        0 <= k < vt.rows@.len() ==> (#[trigger] vt.rows@[k])@ == t0.rows@[k]@);
                }
                assert(vt.fields@ == t0.fields@);
                assert(vt.rows_keyed()) by {
                    assert(forall|k: int|
                        0 <= k < vt.rows@.len() ==> (#[trigger] vt.rows@[k]).keys_unique()
                            == t0.rows@[k].keys_unique());
                }
                assert(vt.row_set_wf()) by {
                    assert(vt.row_set.view() == t0.row_set.view());
                }
            } else {
                assert(maps =~= Seq::<Map<Seq<char>, Seq<char>>>::empty());
                assert(flds =~= Seq::<crate::field::Field>::empty());
            }
        }
        let mut pred_ok = true;
        match &self.querydata.predicate {
            Some(b) => {
                pred_ok = check_predicate(&vt, b);
                proof {
                    assert(pred_ok == pred_wf(flds, maps, (*b).model()));
                    assert((**b).model() == (*old(self).querydata.predicate->Some_0).model());
                }
            },
            None => {},
        }
        if !pred_ok {
            return Err(SQLError::SemanticError(String::from_str("invalid predicate")));
        }
        let pred = self.querydata.predicate.take();
        let ghost pred0 = pred;
        if pred.is_some() {
            let evaluated = match table_predicate(&mut vt, pred) {
                Ok(e) => e,
                Err(e) => {
                    proof {
                        assert(false);
                    }
                    return Err(e);
                },
            };
            let node = match evaluated {
                Some(n) => n,
                None => {
                    proof {
                        assert(false);
                    }
                    return Err(SQLError::SemanticError(String::new()));
                },
            };
            let inner = *node;
            let set2 = inner.set.duplicate();
            vt.set_row_set(set2);
            self.querydata.predicate = Some(Box::new(inner));
            let rl = vt.rows.len();
            proof {
                let sel = eval_tree(maps, flds, (*pred0->Some_0).model());
                assert(maps.len() == rl);
                assert(vt.row_set.seq_view() == inner.set.seq_view());
                assert(inner.set.view() == sel);
                assert(vt.row_set.seq_view().to_set() == sel);
                assert(forall|x: usize| sel.contains(x) ==> (x as nat) < maps.len());
                crate::rowset::lemma_sorted_enum(
                    vt.row_set.seq_view(),
                    sel,
                    maps.len() as nat,
                );
            }
        } else {
            let rl = vt.rows.len();
            proof {
                let sel = full_index_set(maps.len() as nat);
                let q = Seq::new(vt.rows@.len() as nat, |k: int| k as usize);
                assert(maps.len() == rl);
                assert(crate::rowset::sorted_strict(q));
                assert(q.to_set() =~= sel) by {
                    assert forall|x: usize| q.to_set().contains(x) implies sel.contains(x) by {
                        let k = choose|k: int| 0 <= k < q.len() && q[k] == x;
                    }
                    assert forall|x: usize| sel.contains(x) implies q.to_set().contains(x) by {
                        assert(q[x as int] == x);
                        assert(q.contains(x));
                    }
                }
                assert(forall|x: usize| sel.contains(x) ==> (x as nat) < maps.len());
                crate::rowset::lemma_sorted_enum(q, sel, maps.len() as nat);
            }
        }
        let fieldnames = clone_string_vec(&self.querydata.fields);
        let ghost names = name_views(self.querydata.fields@);
        proof {
            assert(name_views(fieldnames@) == names);
        }
        let data = match vt.select(fieldnames) {
            Ok(d) => d,
            Err(e) => {
                let msg = e.message();
                proof {
                    assert(e is SelectFieldNotExisted);
                }
                return Err(SQLError::SemanticError(msg));
            },
        };
        proof {
            assert(data.fields.deep_view() =~= names);
        }
        self.result_json = select_data_to_json(&data);
        proof {
            let idxs = crate::rowset::asc_seq_of(
                (match pred0 {
                    Some(p) => eval_tree(maps, flds, (*p).model()),
                    None => full_index_set(maps.len() as nat),
                }),
                maps.len() as nat,
            );
            match select_rows(maps, idxs, names) {
                Ok(vals) => {
                    assert(rows_sorted(data.rows.deep_view()));
                    assert(data.rows.deep_view().to_multiset() == vals.to_multiset());
                    assert(final(self).result_json@ == spec_select_json(
                        names,
                        data.rows.deep_view(),
                    ));
                },
                Err(_) => {},
            }
        }
        Ok(())
    }
}

impl SQL {
    /// Loads a database from storage as the session's active one.
    pub fn load_database(
        &mut self,
        base: &crate::diskinterface::FileBase,
        db_name: &str,
    ) -> (r: Result<(), SQLError>)
        ensures
            (match crate::diskinterface::spec_user_index(base.users@, old(self).user.name@) {
                None => {
                    &&& r is Err
                    &&& *final(self) == *old(self)
                },
                Some(ui) => match crate::diskinterface::spec_db_index(
                    base.users@[ui].dbs@,
                    db_name@,
                ) {
                    None => {
                        &&& r is Err
                        &&& *final(self) == *old(self)
                    },
                    Some(di) => {
                        let ts = base.users@[ui].dbs@[di].tables@;
                        &&& r is Ok
                        &&& *final(self) == (SQL { database: final(self).database, ..*old(self) })
                        &&& final(self).database.name@ == db_name@
                        &&& !final(self).database.is_dirty
                        &&& !final(self).database.is_delete
                        &&& final(self).database.tables@.len() == ts.len()
                        &&& (forall|k: int| 0 <= k < ts.len() ==> {
                            let t = #[trigger] final(self).database.tables@[k];
                            &&& t.name@ == ts[k].meta.name@
                            &&& t.fields@ == ts[k].meta.attrs@
                            &&& t.primary_key.deep_view() == ts[k].meta.primary_key.deep_view()
                            &&& t.rows@.len() == 0
                            &&& !t.is_dirty
                            &&& !t.is_predicate_init
                            &&& t.row_set_wf()
                            &&& t.rows_keyed()
                        })
                    },
                },
            }),
    {
        let db = match Database::load_db(base, self.user.name.as_str(), db_name) {
            Ok(d) => d,
            Err(_) => {
                return Err(SQLError::SemanticError(String::from_str("database not loadable")));
            },
        };
        self.database = db;
        Ok(())
    }
}

} // verus!
