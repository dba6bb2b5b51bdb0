pub mod text;
pub mod sha256;
pub mod sha1;
pub mod md5;
pub mod base64;
pub mod crypto;
pub mod value;
pub mod strmap;
pub mod timetravel;
pub mod timetravel_tui;
pub mod flow;
pub mod rpc;
pub mod bytecode;
pub mod compiler;
pub mod symbolic;
pub mod net;
pub mod sql;
pub mod actor;
pub mod globals;
pub mod hotreload;
pub mod strsort;
pub mod graph;
pub mod http;
pub mod sqlquery;
pub mod shapes;
pub mod dataframe;
pub mod tensor;
pub mod fiber;
pub mod compute;
pub mod relational;
pub mod colstats;
pub mod interpreter;
pub mod aggregate;
pub mod expr_compiler;
pub mod builtins;
pub mod semantics;
pub mod prover;
pub mod strings;
pub mod csv;
