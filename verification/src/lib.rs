//! Syncs a MySQL/MariaDB database to a `mysqldump` file by touching only what changed.

pub mod balance;
pub mod bytes;
pub mod catalog_laws;
pub mod column_laws;
pub mod convergence;
pub mod create_text;
pub mod db;
pub mod ddl;
pub mod definition_laws;
pub mod diff;
pub mod diff_laws;
pub mod dml;
pub mod dump_laws;
pub mod dumpfile;
pub mod lexical;
pub mod name_list;
pub mod order;
pub mod plan;
pub mod readback;
pub mod row_laws;
pub mod row_table;
pub mod rows;
pub mod run;
pub mod run_laws;
pub mod schema_laws;
pub mod source_laws;
pub mod sqlstream;
pub mod sqltext;
pub mod statement_laws;
pub mod sync;
pub mod table_laws;
pub mod table_map;
pub mod table_text;
pub mod text;
pub mod values;
pub mod whole_dump;
