use vstd::prelude::*;
use crate::expr::Value;

verus! {

/// `rlua::Error`, the failure of a call into the script engine; nothing is
/// known of what is inside.
#[verifier::external_type_specification]
#[verifier::external_body]
pub struct ExLuaError(rlua::prelude::LuaError);

/// `rlua::Context`, the handle on a running state of the script engine;
/// nothing is known of what is inside.
#[verifier::external_type_specification]
#[verifier::external_body]
pub struct ExLuaContext<'lua>(rlua::prelude::LuaContext<'lua>);

/// `rlua::Value`, a value of the script engine; nothing is known of what is
/// inside.
#[verifier::external_type_specification]
#[verifier::external_body]
pub struct ExLuaValue<'lua>(rlua::prelude::LuaValue<'lua>);

/// `rlua::Lua`, a state of the script engine; nothing is known of what is
/// inside.
#[verifier::external_type_specification]
#[verifier::external_body]
pub struct ExLua(rlua::Lua);

/// `Lua::new_with` and `Lua::set_memory_limit`: a fresh state of the script
/// engine for one run of one script.
///
/// The state holds the base, table, string, utf8 and math libraries of the
/// script language, and none that reaches the operating system, files or
/// other modules. It refuses to allocate more than `memory` bytes. Nothing
/// is claimed of the state.
#[verifier::external_body]
pub(crate) fn script_state(memory: usize) -> (lua: rlua::Lua) {
    let lua = rlua::Lua::new_with(
        rlua::StdLib::BASE | rlua::StdLib::TABLE | rlua::StdLib::STRING | rlua::StdLib::UTF8
            | rlua::StdLib::MATH,
    );
    lua.set_memory_limit(Some(memory));
    lua
}

/// What the script engine handed back for one run of a script, as plain
/// data.
pub enum ScriptOutcome {
    /// A floating-point number, as its bit pattern.
    Number(u64),
    /// An integer.
    Integer(i64),
    /// Text.
    Text(String),
    /// A value of a kind that parameters do not hold.
    Unsupported,
    /// The script did not compile or stopped with an error; the payload is
    /// the engine's message.
    Failed(String),
}

/// The bit pattern of the double-precision number nearest to an integer.
pub uninterp spec fn number_of_int(i: i64) -> u64;

/// `f64::to_bits` on the integer converted to a double-precision number,
/// which rounds to the nearest one: the bit pattern depends on the integer
/// alone.
#[verifier::external_body]
pub(crate) fn number_from_int(i: i64) -> (bits: u64)
    ensures
        bits == number_of_int(i),
{
    rlua::Number::to_bits(i as rlua::Number)
}

/// Turns what a lookup found into a value of the script engine: a number, a
/// string made by `Context::create_string`, or `nil`.
#[verifier::external_body]
pub(crate) fn lua_value<'lua>(lua: rlua::prelude::LuaContext<'lua>, found: Option<Value>) -> (res: Result<
    rlua::prelude::LuaValue<'lua>,
    rlua::prelude::LuaError,
>) {
    match found {
        Some(Value::Number(bits)) => Ok(rlua::Value::Number(rlua::Number::from_bits(bits))),
        Some(Value::String(text)) => Ok(rlua::Value::String(lua.create_string(&text)?)),
        None => Ok(rlua::Value::Nil),
    }
}

/// Turns what the script engine returned into plain data, with
/// `String::to_str` for text. Text that is not valid UTF-8 counts as a value
/// of a kind that parameters do not hold; an error is rendered as its
/// message.
#[verifier::external_body]
pub(crate) fn plain_outcome<'lua>(
    res: Result<rlua::prelude::LuaValue<'lua>, rlua::prelude::LuaError>,
) -> (out: ScriptOutcome) {
    match res {
        Ok(rlua::Value::Number(n)) => ScriptOutcome::Number(n.to_bits()),
        Ok(rlua::Value::Integer(i)) => ScriptOutcome::Integer(i),
        Ok(rlua::Value::String(s)) => match s.to_str() {
            Ok(text) => ScriptOutcome::Text(text.to_string()),
            Err(_) => ScriptOutcome::Unsupported,
        },
        Ok(_) => ScriptOutcome::Unsupported,
        Err(e) => ScriptOutcome::Failed(e.to_string()),
    }
}

} // verus!
