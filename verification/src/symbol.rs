//! SQL symbols: tokens, their groups, and the keyword table.

use vstd::prelude::*;
use crate::strutil::str_eq;
use vstd::string::{StringSliceAdditionalSpecFns, StrSliceExecFns};

verus! {

/// A lexed symbol: its source text, byte length, token, and group.
#[derive(Debug, Clone)]
pub struct Symbol {
    pub name: String,
    pub len: usize,
    pub token: Token,
    pub group: Group,
}

#[derive(Debug, Clone, Copy, PartialEq, Eq, Structural)]
pub enum Group {
    DataType,
    Function,
    Keyword,
    Operator,
    Identifier,
    Delimiter,
}

/// Keywords, functions, data types, operators, and delimiters.
#[derive(Debug, Clone, Copy, PartialEq, Eq, Structural)]
pub enum Token {
    Add,
    AddConstraint,
    AlterColumn,
    AlterTable,
    All,
    Any,
    As,
    Asc,
    Between,
    Case,
    Check,
    Column,
    Constraint,
    Create,
    CreateDatabase,
    CreateIndex,
    CreateOrReplaceView,
    CreateTable,
    CreateProcedure,
    CreateUniqueIndex,
    CreateView,
    Database,
    Default,
    Delete,
    Desc,
    Distinct,
    DropColumn,
    DropConstraint,
    DropDatabase,
    DropDefault,
    DropIndex,
    DropTable,
    DropView,
    Exec,
    Exists,
    ForeignKey,
    From,
    FullOuterJoin,
    GroupBy,
    Having,
    In,
    Index,
    InnerJoin,
    InsertInto,
    IsNull,
    IsNotNull,
    LeftJoin,
    Like,
    Limit,
    NotNull,
    OrderBy,
    Percent,
    PrimaryKey,
    Procedure,
    RightJoin,
    Rownum,
    Select,
    SetKeyword,
    Table,
    Top,
    TruncateTable,
    Union,
    UnionAll,
    Unique,
    Update,
    Values,
    View,
    Where,
    Avg,
    Count,
    Max,
    Min,
    Sum,
    Char,
    Double,
    Float,
    Int,
    Varchar,
    LT,
    LE,
    EQ,
    NE,
    GT,
    GE,
    AND,
    NOT,
    OR,
    ParentLeft,
    ParentRight,
    Comma,
    Semicolon,
    Identifier,
    Encrypt,
}

/// Builds a symbol from its source text.
pub fn sym(name: &str, token: Token, group: Group) -> (r: Symbol)
    ensures
        r.name@ == name@,
        r.len == name@.len(),
        r.token == token,
        r.group == group,
{
    let len = name.unicode_len();
    Symbol { name: name.to_owned(), len, token, group }
}

/// The keyword table as a specification: which texts are symbols, and
/// which token and group each maps to.
pub open spec fn spec_symbols_get(w: Seq<char>) -> Option<(Token, Group)> {
    if w == "add"@ {
        Some((Token::Add, Group::Keyword))
    } else if w == "add constraint"@ {
        Some((Token::AddConstraint, Group::Keyword))
    } else if w == "alter column"@ {
        Some((Token::AlterColumn, Group::Keyword))
    } else if w == "alter table"@ {
        Some((Token::AlterTable, Group::Keyword))
    } else if w == "all"@ {
        Some((Token::All, Group::Keyword))
    } else if w == "any"@ {
        Some((Token::Any, Group::Keyword))
    } else if w == "as"@ {
        Some((Token::As, Group::Keyword))
    } else if w == "asc"@ {
        Some((Token::Asc, Group::Keyword))
    } else if w == "between"@ {
        Some((Token::Between, Group::Keyword))
    } else if w == "case"@ {
        Some((Token::Case, Group::Keyword))
    } else if w == "check"@ {
        Some((Token::Check, Group::Keyword))
    } else if w == "column"@ {
        Some((Token::Column, Group::Keyword))
    } else if w == "constraint"@ {
        Some((Token::Constraint, Group::Keyword))
    } else if w == "create"@ {
        Some((Token::Create, Group::Keyword))
    } else if w == "create database"@ {
        Some((Token::CreateDatabase, Group::Keyword))
    } else if w == "create index"@ {
        Some((Token::CreateIndex, Group::Keyword))
    } else if w == "create or replace view"@ {
        Some((Token::CreateOrReplaceView, Group::Keyword))
    } else if w == "create table"@ {
        Some((Token::CreateTable, Group::Keyword))
    } else if w == "create procedure"@ {
        Some((Token::CreateProcedure, Group::Keyword))
    } else if w == "create unique index"@ {
        Some((Token::CreateUniqueIndex, Group::Keyword))
    } else if w == "create view"@ {
        Some((Token::CreateView, Group::Keyword))
    } else if w == "database"@ {
        Some((Token::Database, Group::Keyword))
    } else if w == "default"@ {
        Some((Token::Default, Group::Keyword))
    } else if w == "delete"@ {
        Some((Token::Delete, Group::Keyword))
    } else if w == "desc"@ {
        Some((Token::Desc, Group::Keyword))
    } else if w == "distinct"@ {
        Some((Token::Distinct, Group::Keyword))
    } else if w == "drop column"@ {
        Some((Token::DropColumn, Group::Keyword))
    } else if w == "drop constraint"@ {
        Some((Token::DropConstraint, Group::Keyword))
    } else if w == "drop database"@ {
        Some((Token::DropDatabase, Group::Keyword))
    } else if w == "drop default"@ {
        Some((Token::DropDefault, Group::Keyword))
    } else if w == "drop index"@ {
        Some((Token::DropIndex, Group::Keyword))
    } else if w == "drop table"@ {
        Some((Token::DropTable, Group::Keyword))
    } else if w == "drop view"@ {
        Some((Token::DropView, Group::Keyword))
    } else if w == "exec"@ {
        Some((Token::Exec, Group::Keyword))
    } else if w == "exists"@ {
        Some((Token::Exists, Group::Keyword))
    } else if w == "foreign key"@ {
        Some((Token::ForeignKey, Group::Keyword))
    } else if w == "from"@ {
        Some((Token::From, Group::Keyword))
    } else if w == "full outer join"@ {
        Some((Token::FullOuterJoin, Group::Keyword))
    } else if w == "group by"@ {
        Some((Token::GroupBy, Group::Keyword))
    } else if w == "having"@ {
        Some((Token::Having, Group::Keyword))
    } else if w == "in"@ {
        Some((Token::In, Group::Keyword))
    } else if w == "index"@ {
        Some((Token::Index, Group::Keyword))
    } else if w == "inner join"@ {
        Some((Token::InnerJoin, Group::Keyword))
    } else if w == "insert into"@ {
        Some((Token::InsertInto, Group::Keyword))
    } else if w == "is null"@ {
        Some((Token::IsNull, Group::Keyword))
    } else if w == "is not null"@ {
        Some((Token::IsNotNull, Group::Keyword))
    } else if w == "left join"@ {
        Some((Token::LeftJoin, Group::Keyword))
    } else if w == "like"@ {
        Some((Token::Like, Group::Keyword))
    } else if w == "limit"@ {
        Some((Token::Limit, Group::Keyword))
    } else if w == "not null"@ {
        Some((Token::NotNull, Group::Keyword))
    } else if w == "order by"@ {
        Some((Token::OrderBy, Group::Keyword))
    } else if w == "percent"@ {
        Some((Token::Percent, Group::Keyword))
    } else if w == "primary key"@ {
        Some((Token::PrimaryKey, Group::Keyword))
    } else if w == "procedure"@ {
        Some((Token::Procedure, Group::Keyword))
    } else if w == "right join"@ {
        Some((Token::RightJoin, Group::Keyword))
    } else if w == "rownum"@ {
        Some((Token::Rownum, Group::Keyword))
    } else if w == "select"@ {
        Some((Token::Select, Group::Keyword))
    } else if w == "set"@ {
        Some((Token::SetKeyword, Group::Keyword))
    } else if w == "table"@ {
        Some((Token::Table, Group::Keyword))
    } else if w == "top"@ {
        Some((Token::Top, Group::Keyword))
    } else if w == "truncate table"@ {
        Some((Token::TruncateTable, Group::Keyword))
    } else if w == "union"@ {
        Some((Token::Union, Group::Keyword))
    } else if w == "union all"@ {
        Some((Token::UnionAll, Group::Keyword))
    } else if w == "unique"@ {
        Some((Token::Unique, Group::Keyword))
    } else if w == "update"@ {
        Some((Token::Update, Group::Keyword))
    } else if w == "values"@ {
        Some((Token::Values, Group::Keyword))
    } else if w == "view"@ {
        Some((Token::View, Group::Keyword))
    } else if w == "where"@ {
        Some((Token::Where, Group::Keyword))
    } else if w == "avg"@ {
        Some((Token::Avg, Group::Function))
    } else if w == "count"@ {
        Some((Token::Count, Group::Function))
    } else if w == "max"@ {
        Some((Token::Max, Group::Function))
    } else if w == "min"@ {
        Some((Token::Min, Group::Function))
    } else if w == "sum"@ {
        Some((Token::Sum, Group::Function))
    } else if w == "char"@ {
        Some((Token::Char, Group::DataType))
    } else if w == "double"@ {
        Some((Token::Double, Group::DataType))
    } else if w == "float"@ {
        Some((Token::Float, Group::DataType))
    } else if w == "int"@ {
        Some((Token::Int, Group::DataType))
    } else if w == "varchar"@ {
        Some((Token::Varchar, Group::DataType))
    } else if w == ">"@ {
        Some((Token::GT, Group::Operator))
    } else if w == ">="@ {
        Some((Token::GE, Group::Operator))
    } else if w == "="@ {
        Some((Token::EQ, Group::Operator))
    } else if w == "!="@ {
        Some((Token::NE, Group::Operator))
    } else if w == "<>"@ {
        Some((Token::NE, Group::Operator))
    } else if w == "<"@ {
        Some((Token::LT, Group::Operator))
    } else if w == "<="@ {
        Some((Token::LE, Group::Operator))
    } else if w == "and"@ {
        Some((Token::AND, Group::Operator))
    } else if w == "not"@ {
        Some((Token::NOT, Group::Operator))
    } else if w == "or"@ {
        Some((Token::OR, Group::Operator))
    } else if w == "encrypt"@ {
        Some((Token::Encrypt, Group::Keyword))
    } else {
        None
    }
}

/// Looks a word up in the keyword table.
pub fn symbols_get(word: &str) -> (r: Option<Symbol>)
    ensures
        r is Some <==> spec_symbols_get(word@) is Some,
        r is Some ==> {
            let (t, g) = spec_symbols_get(word@)->Some_0;
            &&& r->Some_0.name@ == word@
            &&& r->Some_0.len == word@.len()
            &&& r->Some_0.token == t
            &&& r->Some_0.group == g
        },
{
    if str_eq(word, "add") {
        Some(sym(word, Token::Add, Group::Keyword))
    } else if str_eq(word, "add constraint") {
        Some(sym(word, Token::AddConstraint, Group::Keyword))
    } else if str_eq(word, "alter column") {
        Some(sym(word, Token::AlterColumn, Group::Keyword))
    } else if str_eq(word, "alter table") {
        Some(sym(word, Token::AlterTable, Group::Keyword))
    } else if str_eq(word, "all") {
        Some(sym(word, Token::All, Group::Keyword))
    } else if str_eq(word, "any") {
        Some(sym(word, Token::Any, Group::Keyword))
    } else if str_eq(word, "as") {
        Some(sym(word, Token::As, Group::Keyword))
    } else if str_eq(word, "asc") {
        Some(sym(word, Token::Asc, Group::Keyword))
    } else if str_eq(word, "between") {
        Some(sym(word, Token::Between, Group::Keyword))
    } else if str_eq(word, "case") {
        Some(sym(word, Token::Case, Group::Keyword))
    } else if str_eq(word, "check") {
        Some(sym(word, Token::Check, Group::Keyword))
    } else if str_eq(word, "column") {
        Some(sym(word, Token::Column, Group::Keyword))
    } else if str_eq(word, "constraint") {
        Some(sym(word, Token::Constraint, Group::Keyword))
    } else if str_eq(word, "create") {
        Some(sym(word, Token::Create, Group::Keyword))
    } else if str_eq(word, "create database") {
        Some(sym(word, Token::CreateDatabase, Group::Keyword))
    } else if str_eq(word, "create index") {
        Some(sym(word, Token::CreateIndex, Group::Keyword))
    } else if str_eq(word, "create or replace view") {
        Some(sym(word, Token::CreateOrReplaceView, Group::Keyword))
    } else if str_eq(word, "create table") {
        Some(sym(word, Token::CreateTable, Group::Keyword))
    } else if str_eq(word, "create procedure") {
        Some(sym(word, Token::CreateProcedure, Group::Keyword))
    } else if str_eq(word, "create unique index") {
        Some(sym(word, Token::CreateUniqueIndex, Group::Keyword))
    } else if str_eq(word, "create view") {
        Some(sym(word, Token::CreateView, Group::Keyword))
    } else if str_eq(word, "database") {
        Some(sym(word, Token::Database, Group::Keyword))
    } else if str_eq(word, "default") {
        Some(sym(word, Token::Default, Group::Keyword))
    } else if str_eq(word, "delete") {
        Some(sym(word, Token::Delete, Group::Keyword))
    } else if str_eq(word, "desc") {
        Some(sym(word, Token::Desc, Group::Keyword))
    } else if str_eq(word, "distinct") {
        Some(sym(word, Token::Distinct, Group::Keyword))
    } else if str_eq(word, "drop column") {
        Some(sym(word, Token::DropColumn, Group::Keyword))
    } else if str_eq(word, "drop constraint") {
        Some(sym(word, Token::DropConstraint, Group::Keyword))
    } else if str_eq(word, "drop database") {
        Some(sym(word, Token::DropDatabase, Group::Keyword))
    } else if str_eq(word, "drop default") {
        Some(sym(word, Token::DropDefault, Group::Keyword))
    } else if str_eq(word, "drop index") {
        Some(sym(word, Token::DropIndex, Group::Keyword))
    } else if str_eq(word, "drop table") {
        Some(sym(word, Token::DropTable, Group::Keyword))
    } else if str_eq(word, "drop view") {
        Some(sym(word, Token::DropView, Group::Keyword))
    } else if str_eq(word, "exec") {
        Some(sym(word, Token::Exec, Group::Keyword))
    } else if str_eq(word, "exists") {
        Some(sym(word, Token::Exists, Group::Keyword))
    } else if str_eq(word, "foreign key") {
        Some(sym(word, Token::ForeignKey, Group::Keyword))
    } else if str_eq(word, "from") {
        Some(sym(word, Token::From, Group::Keyword))
    } else if str_eq(word, "full outer join") {
        Some(sym(word, Token::FullOuterJoin, Group::Keyword))
    } else if str_eq(word, "group by") {
        Some(sym(word, Token::GroupBy, Group::Keyword))
    } else if str_eq(word, "having") {
        Some(sym(word, Token::Having, Group::Keyword))
    } else if str_eq(word, "in") {
        Some(sym(word, Token::In, Group::Keyword))
    } else if str_eq(word, "index") {
        Some(sym(word, Token::Index, Group::Keyword))
    } else if str_eq(word, "inner join") {
        Some(sym(word, Token::InnerJoin, Group::Keyword))
    } else if str_eq(word, "insert into") {
        Some(sym(word, Token::InsertInto, Group::Keyword))
    } else if str_eq(word, "is null") {
        Some(sym(word, Token::IsNull, Group::Keyword))
    } else if str_eq(word, "is not null") {
        Some(sym(word, Token::IsNotNull, Group::Keyword))
    } else if str_eq(word, "left join") {
        Some(sym(word, Token::LeftJoin, Group::Keyword))
    } else if str_eq(word, "like") {
        Some(sym(word, Token::Like, Group::Keyword))
    } else if str_eq(word, "limit") {
        Some(sym(word, Token::Limit, Group::Keyword))
    } else if str_eq(word, "not null") {
        Some(sym(word, Token::NotNull, Group::Keyword))
    } else if str_eq(word, "order by") {
        Some(sym(word, Token::OrderBy, Group::Keyword))
    } else if str_eq(word, "percent") {
        Some(sym(word, Token::Percent, Group::Keyword))
    } else if str_eq(word, "primary key") {
        Some(sym(word, Token::PrimaryKey, Group::Keyword))
    } else if str_eq(word, "procedure") {
        Some(sym(word, Token::Procedure, Group::Keyword))
    } else if str_eq(word, "right join") {
        Some(sym(word, Token::RightJoin, Group::Keyword))
    } else if str_eq(word, "rownum") {
        Some(sym(word, Token::Rownum, Group::Keyword))
    } else if str_eq(word, "select") {
        Some(sym(word, Token::Select, Group::Keyword))
    } else if str_eq(word, "set") {
        Some(sym(word, Token::SetKeyword, Group::Keyword))
    } else if str_eq(word, "table") {
        Some(sym(word, Token::Table, Group::Keyword))
    } else if str_eq(word, "top") {
        Some(sym(word, Token::Top, Group::Keyword))
    } else if str_eq(word, "truncate table") {
        Some(sym(word, Token::TruncateTable, Group::Keyword))
    } else if str_eq(word, "union") {
        Some(sym(word, Token::Union, Group::Keyword))
    } else if str_eq(word, "union all") {
        Some(sym(word, Token::UnionAll, Group::Keyword))
    } else if str_eq(word, "unique") {
        Some(sym(word, Token::Unique, Group::Keyword))
    } else if str_eq(word, "update") {
        Some(sym(word, Token::Update, Group::Keyword))
    } else if str_eq(word, "values") {
        Some(sym(word, Token::Values, Group::Keyword))
    } else if str_eq(word, "view") {
        Some(sym(word, Token::View, Group::Keyword))
    } else if str_eq(word, "where") {
        Some(sym(word, Token::Where, Group::Keyword))
    } else if str_eq(word, "avg") {
        Some(sym(word, Token::Avg, Group::Function))
    } else if str_eq(word, "count") {
        Some(sym(word, Token::Count, Group::Function))
    } else if str_eq(word, "max") {
        Some(sym(word, Token::Max, Group::Function))
    } else if str_eq(word, "min") {
        Some(sym(word, Token::Min, Group::Function))
    } else if str_eq(word, "sum") {
        Some(sym(word, Token::Sum, Group::Function))
    } else if str_eq(word, "char") {
        Some(sym(word, Token::Char, Group::DataType))
    } else if str_eq(word, "double") {
        Some(sym(word, Token::Double, Group::DataType))
    } else if str_eq(word, "float") {
        Some(sym(word, Token::Float, Group::DataType))
    } else if str_eq(word, "int") {
        Some(sym(word, Token::Int, Group::DataType))
    } else if str_eq(word, "varchar") {
        Some(sym(word, Token::Varchar, Group::DataType))
    } else if str_eq(word, ">") {
        Some(sym(word, Token::GT, Group::Operator))
    } else if str_eq(word, ">=") {
        Some(sym(word, Token::GE, Group::Operator))
    } else if str_eq(word, "=") {
        Some(sym(word, Token::EQ, Group::Operator))
    } else if str_eq(word, "!=") {
        Some(sym(word, Token::NE, Group::Operator))
    } else if str_eq(word, "<>") {
        Some(sym(word, Token::NE, Group::Operator))
    } else if str_eq(word, "<") {
        Some(sym(word, Token::LT, Group::Operator))
    } else if str_eq(word, "<=") {
        Some(sym(word, Token::LE, Group::Operator))
    } else if str_eq(word, "and") {
        Some(sym(word, Token::AND, Group::Operator))
    } else if str_eq(word, "not") {
        Some(sym(word, Token::NOT, Group::Operator))
    } else if str_eq(word, "or") {
        Some(sym(word, Token::OR, Group::Operator))
    } else if str_eq(word, "encrypt") {
        Some(sym(word, Token::Encrypt, Group::Keyword))
    } else {
        None
    }
}

impl Symbol {
    /// The symbol a delimiter character lexes to, if any.
    pub open spec fn spec_match_delimiter(ch: char) -> Option<(Seq<char>, Token)> {
        if ch == '(' {
            Some(("("@, Token::ParentLeft))
        } else if ch == ')' {
            Some((")"@, Token::ParentRight))
        } else if ch == ',' {
            Some((","@, Token::Comma))
        } else if ch == ';' {
            Some((";"@, Token::Semicolon))
        } else {
            None
        }
    }

    pub fn match_delimiter(ch: char) -> (r: Option<Symbol>)
        ensures
            r is Some <==> Self::spec_match_delimiter(ch) is Some,
            r is Some ==> {
                let (name, t) = Self::spec_match_delimiter(ch)->Some_0;
                &&& r->Some_0.name@ == name
                &&& r->Some_0.len == 1
                &&& r->Some_0.token == t
                &&& r->Some_0.group == Group::Delimiter
            },
    {
        proof {
            reveal_strlit("(");
            reveal_strlit(")");
            reveal_strlit(",");
            reveal_strlit(";");
        }
        match ch {
            '(' => Some(sym("(", Token::ParentLeft, Group::Delimiter)),
            ')' => Some(sym(")", Token::ParentRight, Group::Delimiter)),
            ',' => Some(sym(",", Token::Comma, Group::Delimiter)),
            ';' => Some(sym(";", Token::Semicolon, Group::Delimiter)),
            _ => None,
        }
    }
}

/// How many words each multi-word keyword beginning with this word may
/// have, e.g. `is` begins `is null` (2) and `is not null` (3).
pub open spec fn spec_multi_keywords_front(w: Seq<char>) -> Option<Seq<u32>> {
    if w == "add"@ {
        Some(seq![2u32])
    } else if w == "alter"@ {
        Some(seq![2u32])
    } else if w == "create"@ {
        Some(seq![2u32, 3u32, 4u32])
    } else if w == "drop"@ {
        Some(seq![2u32])
    } else if w == "foreign"@ {
        Some(seq![2u32])
    } else if w == "full"@ {
        Some(seq![2u32])
    } else if w == "group"@ {
        Some(seq![2u32])
    } else if w == "inner"@ {
        Some(seq![2u32])
    } else if w == "insert"@ {
        Some(seq![2u32])
    } else if w == "is"@ {
        Some(seq![2u32, 3u32])
    } else if w == "left"@ {
        Some(seq![2u32])
    } else if w == "not"@ {
        Some(seq![2u32])
    } else if w == "order"@ {
        Some(seq![2u32])
    } else if w == "outer"@ {
        Some(seq![2u32])
    } else if w == "primary"@ {
        Some(seq![2u32])
    } else if w == "right"@ {
        Some(seq![2u32])
    } else if w == "select"@ {
        Some(seq![2u32])
    } else if w == "truncate"@ {
        Some(seq![2u32])
    } else if w == "union"@ {
        Some(seq![2u32])
    } else {
        None
    }
}

/// Checks whether the word begins one or more multi-word keywords and
/// returns the candidate word counts.
pub fn check_multi_keywords_front(s: &str) -> (r: Option<Vec<u32>>)
    ensures
        r is Some <==> spec_multi_keywords_front(s@) is Some,
        r is Some ==> r->Some_0@ == spec_multi_keywords_front(s@)->Some_0,
{
    if str_eq(s, "add") {
        let v: Vec<u32> = vec![2];
        proof { assert(v@ =~= spec_multi_keywords_front(s@)->Some_0); }
        Some(v)
    } else if str_eq(s, "alter") {
        let v: Vec<u32> = vec![2];
        proof { assert(v@ =~= spec_multi_keywords_front(s@)->Some_0); }
        Some(v)
    } else if str_eq(s, "create") {
        let v: Vec<u32> = vec![2, 3, 4];
        proof { assert(v@ =~= spec_multi_keywords_front(s@)->Some_0); }
        Some(v)
    } else if str_eq(s, "drop") {
        let v: Vec<u32> = vec![2];
        proof { assert(v@ =~= spec_multi_keywords_front(s@)->Some_0); }
        Some(v)
    } else if str_eq(s, "foreign") {
        let v: Vec<u32> = vec![2];
        proof { assert(v@ =~= spec_multi_keywords_front(s@)->Some_0); }
        Some(v)
    } else if str_eq(s, "full") {
        let v: Vec<u32> = vec![2];
        proof { assert(v@ =~= spec_multi_keywords_front(s@)->Some_0); }
        Some(v)
    } else if str_eq(s, "group") {
        let v: Vec<u32> = vec![2];
        proof { assert(v@ =~= spec_multi_keywords_front(s@)->Some_0); }
        Some(v)
    } else if str_eq(s, "inner") {
        let v: Vec<u32> = vec![2];
        proof { assert(v@ =~= spec_multi_keywords_front(s@)->Some_0); }
        Some(v)
    } else if str_eq(s, "insert") {
        let v: Vec<u32> = vec![2];
        proof { assert(v@ =~= spec_multi_keywords_front(s@)->Some_0); }
        Some(v)
    } else if str_eq(s, "is") {
        let v: Vec<u32> = vec![2, 3];
        proof { assert(v@ =~= spec_multi_keywords_front(s@)->Some_0); }
        Some(v)
    } else if str_eq(s, "left") {
        let v: Vec<u32> = vec![2];
        proof { assert(v@ =~= spec_multi_keywords_front(s@)->Some_0); }
        Some(v)
    } else if str_eq(s, "not") {
        let v: Vec<u32> = vec![2];
        proof { assert(v@ =~= spec_multi_keywords_front(s@)->Some_0); }
        Some(v)
    } else if str_eq(s, "order") {
        let v: Vec<u32> = vec![2];
        proof { assert(v@ =~= spec_multi_keywords_front(s@)->Some_0); }
        Some(v)
    } else if str_eq(s, "outer") {
        let v: Vec<u32> = vec![2];
        proof { assert(v@ =~= spec_multi_keywords_front(s@)->Some_0); }
        Some(v)
    } else if str_eq(s, "primary") {
        let v: Vec<u32> = vec![2];
        proof { assert(v@ =~= spec_multi_keywords_front(s@)->Some_0); }
        Some(v)
    } else if str_eq(s, "right") {
        let v: Vec<u32> = vec![2];
        proof { assert(v@ =~= spec_multi_keywords_front(s@)->Some_0); }
        Some(v)
    } else if str_eq(s, "select") {
        let v: Vec<u32> = vec![2];
        proof { assert(v@ =~= spec_multi_keywords_front(s@)->Some_0); }
        Some(v)
    } else if str_eq(s, "truncate") {
        let v: Vec<u32> = vec![2];
        proof { assert(v@ =~= spec_multi_keywords_front(s@)->Some_0); }
        Some(v)
    } else if str_eq(s, "union") {
        let v: Vec<u32> = vec![2];
        proof { assert(v@ =~= spec_multi_keywords_front(s@)->Some_0); }
        Some(v)
    } else {
        None
    }
}

} // verus!
