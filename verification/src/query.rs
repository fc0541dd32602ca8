//! The internal representation of a `SELECT`: selected fields, source
//! tables, joins, and the predicate tree.

use vstd::prelude::*;
use crate::rowset::RowSet;
use crate::strutil::str_eq;

verus! {

/// Data collected while parsing a `SELECT` query.
#[derive(Debug)]
pub struct QueryData {
    pub fields: Vec<String>,
    pub tables: Vec<String>,
    pub joins: Vec<Join>,
    pub predicate: Option<Box<Node>>,
    pub group_fields: Vec<String>,
    pub aggregation_fn: Vec<String>,
    pub sort_fields: Vec<String>,
    pub sort_dir: SortDirection,
    pub is_distinct: bool,
    pub top: TopType,
}

impl QueryData {
    pub fn new() -> (r: QueryData)
        ensures
            r.fields@ == Seq::<String>::empty(),
            r.tables@ == Seq::<String>::empty(),
            r.joins@.len() == 0,
            r.predicate is None,
            r.group_fields@.len() == 0,
            r.aggregation_fn@.len() == 0,
            r.sort_fields@.len() == 0,
            r.sort_dir is Unsorted,
            !r.is_distinct,
            r.top is NoTop,
    {
        QueryData {
            fields: Vec::new(),
            tables: Vec::new(),
            joins: Vec::new(),
            predicate: None,
            group_fields: Vec::new(),
            aggregation_fn: Vec::new(),
            sort_fields: Vec::new(),
            sort_dir: SortDirection::Unsorted,
            is_distinct: false,
            top: TopType::NoTop,
        }
    }
}

#[derive(Debug, Clone, Copy, PartialEq, Eq, Structural)]
pub enum SortDirection {
    Asc,
    Desc,
    Unsorted,
}

/// The `TOP` clause slot; a percentage is carried as a whole number.
#[derive(Debug, Clone, Copy, PartialEq, Eq, Structural)]
pub enum TopType {
    Percent(u32),
    Number(u32),
    NoTop,
}

#[derive(Debug)]
pub struct Join {
    pub join_type: JoinType,
    pub table: String,
    pub condition: Option<Box<Node>>,
}

impl Join {
    /// A join of the named kind with its table and condition still unset.
    pub fn new(name: &str) -> (r: Join)
        requires
            JoinType::spec_get(name@) is Some,
        ensures
            r.join_type == JoinType::spec_get(name@)->Some_0,
            r.table@ == Seq::<char>::empty(),
            r.condition is None,
    {
        let join_type = match JoinType::get(name) {
            Some(t) => t,
            None => {
                proof {
                    assert(false);
                }
                JoinType::InnerJoin
            },
        };
        Join { join_type, table: String::new(), condition: None }
    }
}

#[derive(Debug, Clone, Copy, PartialEq, Eq, Structural)]
pub enum JoinType {
    InnerJoin,
    FullOuterJoin,
    RightJoin,
    LeftJoin,
}

impl JoinType {
    pub open spec fn spec_get(name: Seq<char>) -> Option<JoinType> {
        if name == "inner join"@ {
            Some(JoinType::InnerJoin)
        } else if name == "full outer join"@ {
            Some(JoinType::FullOuterJoin)
        } else if name == "left join"@ {
            Some(JoinType::LeftJoin)
        } else if name == "right join"@ {
            Some(JoinType::RightJoin)
        } else {
            None
        }
    }

    pub fn get(name: &str) -> (r: Option<JoinType>)
        ensures
            r == Self::spec_get(name@),
    {
        if str_eq(name, "inner join") {
            Some(JoinType::InnerJoin)
        } else if str_eq(name, "full outer join") {
            Some(JoinType::FullOuterJoin)
        } else if str_eq(name, "left join") {
            Some(JoinType::LeftJoin)
        } else if str_eq(name, "right join") {
            Some(JoinType::RightJoin)
        } else {
            None
        }
    }
}

/// One node of a predicate tree. Comparison nodes are collapsed during
/// evaluation into leaves carrying the selected row set.
#[derive(Debug)]
pub struct Node {
    pub root: String,
    pub left: Option<Box<Node>>,
    pub right: Option<Box<Node>>,
    pub set: RowSet,
}

/// The mathematical shape of a predicate tree.
pub enum PredTree {
    Leaf(Seq<char>),
    Unary(Seq<char>, Box<PredTree>),
    Binary(Seq<char>, Box<PredTree>, Box<PredTree>),
}

impl Node {
    /// The tree a node stands for: `Unary` has only a right child.
    pub open spec fn model(self) -> PredTree
        decreases self,
    {
        match (self.left, self.right) {
            (Some(l), Some(r)) => PredTree::Binary(self.root@, Box::new(l.model()), Box::new(
                r.model(),
            )),
            (None, Some(r)) => PredTree::Unary(self.root@, Box::new(r.model())),
            (Some(l), None) => PredTree::Leaf(self.root@),
            (None, None) => PredTree::Leaf(self.root@),
        }
    }

    pub fn new(root: String) -> (r: Node)
        ensures
            r.root == root,
            r.left is None,
            r.right is None,
            r.model() == PredTree::Leaf(root@),
    {
        Node { root, left: None, right: None, set: RowSet::new() }
    }

    /// Attaches a left child.
    pub fn left(self, leaf: Node) -> (r: Node)
        ensures
            r.root == self.root,
            r.right == self.right,
            r.set == self.set,
            r.left is Some && *r.left->Some_0 == leaf,
    {
        Node { left: Some(Box::new(leaf)), ..self }
    }

    /// Attaches a right child.
    pub fn right(self, leaf: Node) -> (r: Node)
        ensures
            r.root == self.root,
            r.left == self.left,
            r.set == self.set,
            r.right is Some && *r.right->Some_0 == leaf,
    {
        Node { right: Some(Box::new(leaf)), ..self }
    }
}

/// The in-order rendering of a predicate tree.
pub open spec fn tree_in_order(t: PredTree) -> Seq<Seq<char>>
    decreases t,
{
    match t {
        PredTree::Leaf(name) => seq![name],
        PredTree::Unary(name, r) => seq![name] + tree_in_order(*r),
        PredTree::Binary(name, l, r) => tree_in_order(*l) + seq![name] + tree_in_order(*r),
    }
}

} // verus!
