//! A minimal relational DBMS core: SQL front-end, execution worker,
//! paged byte-packed table storage, and an LRU session pool.

pub mod btree;
pub mod bytescoder;
pub mod database;
pub mod datatype;
pub mod decimal;
pub mod diskinterface;
pub mod field;
pub mod index;
pub mod jsonout;
pub mod lexer;
pub mod numtext;
pub mod parser;
pub mod page;
pub mod pool;
pub mod query;
pub mod request;
pub mod response;
pub mod rowset;
pub mod strutil;
pub mod symbol;
pub mod tree;
pub mod table;
pub mod worker;
