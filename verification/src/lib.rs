//! Loading of files in the grammar of Linux's `sysctl.conf` into nested
//! key/value tables, and validation of the loaded values against a schema.
//!
//! Values are stored under the `.`-separated parts of their keys, so
//! `log.file = /var/log/console.log` becomes a table `log` holding `file`.
//! A schema ([`Schema`]) lists the keys a configuration must have and the
//! type of each; [`Schema::validate`] reports every key of the wrong type,
//! every missing key and every key the schema does not define.
use vstd::prelude::*;

pub mod config;
pub mod json;
pub mod parser;
pub mod schema;
pub mod text;
pub mod value;

pub use crate::config::SysctlConfig;
pub use crate::parser::{ParseError, Parser};
pub use crate::schema::{Schema, ValidationError, ValueType};
pub use crate::value::{Table, Value};

verus! {

/// Loads a text in `sysctl.conf` format.
pub fn parse_str(input: &str) -> (r: Result<SysctlConfig, ParseError>)
    ensures
        match r {
            Ok(c) => parser::parse_config(input@) == Ok::<_, Seq<char>>(c@),
            Err(e) => parser::parse_config(input@) == Err::<Seq<(Seq<char>, value::ValueView)>, _>(
                e.0@,
            ),
        },
{
    Parser::new().parse_str(input)
}

} // verus!
