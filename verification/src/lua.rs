use vstd::prelude::*;

verus! {

/// Relies on mlua::Function: a handle to a formatter callback held by
/// the embedded scripting engine. Opaque here: the library stores such
/// handles and calls them, nothing more.
#[verifier::external_type_specification]
#[verifier::external_body]
pub struct ExLuaFunction(mlua::Function);

/// Relies on mlua::Table: a reference to a table of the scripting
/// engine. Opaque here.
#[verifier::external_type_specification]
#[verifier::external_body]
pub struct ExLuaTable(mlua::Table);

/// Relies on mlua::Value: any value of the scripting engine. Opaque
/// here; read only through the accessors below.
#[verifier::external_type_specification]
#[verifier::external_body]
pub struct ExLuaValue(mlua::Value);

/// Relies on mlua::Error: the scripting engine's error type. Opaque
/// here; turned into text by `lua_error_text`.
#[verifier::external_type_specification]
#[verifier::external_body]
pub struct ExLuaError(mlua::Error);

/// Relies on mlua::Function::call: invokes the callback with the
/// entry's display name, its path, and the reserved tick argument, and
/// hands back the single value the script returned, or the engine's
/// error. Nothing is assumed of the result: the script is arbitrary,
/// and two calls on equal arguments may answer differently.
#[verifier::external_body]
pub(crate) fn call_formatter(f: &mlua::Function, name: &str, path: &str, tick: u64) -> Result<
    mlua::Value,
    mlua::Error,
> {
    f.call::<mlua::Value>((name, path, tick))
}

/// Relies on mlua::Value::as_string and mlua::String::to_string_lossy:
/// the text a string value holds (lossily decoded), or nothing for a
/// value of any other kind.
#[verifier::external_body]
pub(crate) fn value_text(v: &mlua::Value) -> Option<String> {
    match v {
        mlua::Value::String(s) => Some(s.to_string_lossy()),
        _ => None,
    }
}

/// Relies on mlua::Value::as_table: the table a value holds, or
/// nothing for a value of any other kind.
#[verifier::external_body]
pub(crate) fn value_table(v: &mlua::Value) -> Option<&mlua::Table> {
    v.as_table()
}

/// Relies on mlua::Table::sequence_values: the values of the table's
/// sequence part, in index order, each required to be a table itself;
/// the engine's error when one is not.
#[verifier::external_body]
pub(crate) fn table_records(t: &mlua::Table) -> Result<Vec<mlua::Table>, mlua::Error> {
    t.sequence_values::<mlua::Table>().collect()
}

/// Relies on mlua::Table::get with a string key: the named field as
/// text, or the engine's error when the field is missing or is no
/// string.
#[verifier::external_body]
pub(crate) fn table_text_field(t: &mlua::Table, key: &str) -> Result<String, mlua::Error> {
    t.get::<String>(key)
}

/// Relies on mlua::Table::get with a string key: the named field as a
/// plain value, or the engine's error when reading it fails.
#[verifier::external_body]
pub(crate) fn table_value_field(t: &mlua::Table, key: &str) -> Result<mlua::Value, mlua::Error> {
    t.get::<mlua::Value>(key)
}

/// Relies on mlua::Table::get with a numeric index: the element as a
/// byte-sized integer, or the engine's error when the element is
/// missing, is no integer, or does not fit.
#[verifier::external_body]
pub(crate) fn table_u8_at(t: &mlua::Table, idx: i64) -> Result<u8, mlua::Error> {
    t.get::<u8>(idx)
}

/// Relies on mlua::Error's Display impl: the engine's description of
/// an error, as text.
#[verifier::external_body]
pub(crate) fn lua_error_text(e: &mlua::Error) -> String {
    e.to_string()
}

} // verus!
