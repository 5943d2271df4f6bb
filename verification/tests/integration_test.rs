use std::cell::RefCell;
use std::rc::Rc;

use luaffi::cdata::CData;
use luaffi::error::FfiError;
use luaffi::ffi_ops::{
    cast_cdata, cdata_to_number, cdata_to_string, copy_memory, fill_memory, get_address, istype,
    new_cdata, offsetof_field, sizeof_type, TypeRegistry,
};
use luaffi::memory::Memory;
use luaffi::parser::parse_cdef;
use luaffi::value::{DynamicValue, HostEntry, HostValue};
use mlua::prelude::{
    Lua, LuaAnyUserData, LuaError, LuaFunction, LuaMetaMethod, LuaResult, LuaTable, LuaUserData,
    LuaUserDataMethods, LuaValue,
};

// The engine behind a Lua state: the registry of types and the memory.
struct Engine {
    registry: TypeRegistry,
    memory: Memory,
}

type Shared = Rc<RefCell<Engine>>;

// A value of a C type in the hands of Lua.
struct LuaCData {
    cdata: CData,
    engine: Shared,
}

// The default library: it can be held, and holds no symbols.
struct CLib;

impl LuaUserData for CLib {}

fn failure(e: FfiError) -> LuaError {
    LuaError::RuntimeError(format!("{:?}", e))
}

fn to_host(value: &LuaValue) -> LuaResult<HostValue> {
    Ok(match value {
        LuaValue::Nil => HostValue::Nil,
        LuaValue::Boolean(b) => HostValue::Boolean(*b),
        LuaValue::Integer(i) => HostValue::Integer(*i),
        LuaValue::Number(n) => HostValue::Number(n.to_bits()),
        LuaValue::String(s) => HostValue::Text(s.as_bytes().to_vec()),
        LuaValue::Table(table) => {
            let len = table.raw_len();
            let mut items = Vec::new();
            for i in 1..=len {
                items.push(to_host(&table.get::<LuaValue>(i)?)?);
            }
            let mut entries = Vec::new();
            for pair in table.pairs::<LuaValue, LuaValue>() {
                let (key, item) = pair?;
                if let LuaValue::String(key) = key {
                    entries.push(HostEntry {
                        key: key.as_bytes().to_vec(),
                        value: to_host(&item)?,
                    });
                }
            }
            HostValue::Table { items, entries }
        }
        LuaValue::UserData(ud) => HostValue::Handle(ud.borrow::<LuaCData>()?.cdata.as_ptr()),
        _ => return Err(LuaError::RuntimeError("Cannot pass this value to C".to_string())),
    })
}

fn to_lua(lua: &Lua, engine: &Shared, value: DynamicValue) -> LuaResult<LuaValue> {
    Ok(match value {
        DynamicValue::Integer(i) => LuaValue::Integer(i),
        DynamicValue::Boolean(b) => LuaValue::Boolean(b),
        DynamicValue::Number(bits) => LuaValue::Number(f64::from_bits(bits)),
        DynamicValue::Handle(cdata) => LuaValue::UserData(lua.create_userdata(LuaCData {
            cdata,
            engine: engine.clone(),
        })?),
    })
}

impl LuaUserData for LuaCData {
    fn add_methods<M: LuaUserDataMethods<Self>>(methods: &mut M) {
        methods.add_meta_method(LuaMetaMethod::Index, |lua, this, key: LuaValue| {
            let key = to_host(&key)?;
            let value = this
                .cdata
                .index(&this.engine.borrow().memory, &key)
                .map_err(failure)?;
            to_lua(lua, &this.engine, value)
        });
        methods.add_meta_method(
            LuaMetaMethod::NewIndex,
            |_lua, this, (key, value): (LuaValue, LuaValue)| {
                let key = to_host(&key)?;
                let value = to_host(&value)?;
                this.cdata
                    .new_index(&mut this.engine.borrow_mut().memory, &key, &value)
                    .map_err(failure)
            },
        );
        methods.add_meta_method(LuaMetaMethod::Len, |_lua, this, ()| {
            this.cdata.len().map_err(failure)
        });
    }
}

// The module as the host sees it, over an engine of its own.
fn lua_module(lua: &Lua) -> LuaResult<LuaTable> {
    let engine: Shared = Rc::new(RefCell::new(Engine {
        registry: TypeRegistry::new(),
        memory: Memory::new(),
    }));
    let exports = lua.create_table()?;
    exports.set("VERSION", "0.1.1-rust")?;

    let e = engine.clone();
    exports.set(
        "cdef",
        lua.create_function(move |_, code: String| {
            parse_cdef(&mut e.borrow_mut().registry, &code).map_err(failure)
        })?,
    )?;
    exports.set("load", lua.create_function(|lua, _name: String| lua.create_userdata(CLib))?)?;
    let e = engine.clone();
    exports.set(
        "new",
        lua.create_function(move |lua, (name, init): (String, Option<LuaValue>)| {
            let init = match &init {
                Some(value) => Some(to_host(value)?),
                None => None,
            };
            let cdata = {
                let engine = &mut *e.borrow_mut();
                new_cdata(&engine.registry, &mut engine.memory, &name, init.as_ref())
                    .map_err(failure)?
            };
            lua.create_userdata(LuaCData { cdata, engine: e.clone() })
        })?,
    )?;
    let e = engine.clone();
    exports.set(
        "cast",
        lua.create_function(move |lua, (name, value): (String, LuaValue)| {
            let value = to_host(&value)?;
            let cdata = cast_cdata(&e.borrow().registry, &name, &value).map_err(failure)?;
            lua.create_userdata(LuaCData { cdata, engine: e.clone() })
        })?,
    )?;
    exports.set(
        "metatype",
        lua.create_function(|lua, (name, metatable): (String, LuaTable)| {
            lua.set_named_registry_value(&format!("ffi_metatype_{}", name), metatable.clone())?;
            Ok(LuaValue::Table(metatable))
        })?,
    )?;
    exports.set("typeof", lua.create_function(|_, name: String| Ok(name))?)?;
    let e = engine.clone();
    exports.set(
        "addressof",
        lua.create_function(move |lua, cdata: LuaAnyUserData| {
            let cd = cdata.borrow::<LuaCData>()?;
            lua.create_userdata(LuaCData { cdata: get_address(&cd.cdata), engine: e.clone() })
        })?,
    )?;
    exports.set(
        "gc",
        lua.create_function(|_, (cdata, _finalizer): (LuaAnyUserData, LuaFunction)| Ok(cdata))?,
    )?;
    let e = engine.clone();
    exports.set(
        "sizeof",
        lua.create_function(move |_, name: String| {
            sizeof_type(&e.borrow().registry, &name).map_err(failure)
        })?,
    )?;
    let e = engine.clone();
    exports.set(
        "offsetof",
        lua.create_function(move |_, (name, field): (String, String)| {
            offsetof_field(&e.borrow().registry, &name, &field).map_err(failure)
        })?,
    )?;
    let e = engine.clone();
    exports.set(
        "istype",
        lua.create_function(move |_, (name, value): (String, LuaValue)| {
            Ok(match value {
                LuaValue::UserData(ud) => match ud.borrow::<LuaCData>() {
                    Ok(cd) => istype(&e.borrow().registry, &name, &cd.cdata),
                    Err(_) => false,
                },
                _ => false,
            })
        })?,
    )?;
    let e = engine.clone();
    exports.set(
        "tonumber",
        lua.create_function(move |_, cdata: LuaAnyUserData| {
            let cd = cdata.borrow::<LuaCData>()?;
            cdata_to_number(&e.borrow().memory, &cd.cdata)
                .map(f64::from_bits)
                .map_err(failure)
        })?,
    )?;
    let e = engine.clone();
    exports.set(
        "string",
        lua.create_function(move |_, cdata: LuaAnyUserData| {
            let cd = cdata.borrow::<LuaCData>()?;
            cdata_to_string(&e.borrow().memory, &cd.cdata).map_err(failure)
        })?,
    )?;
    let e = engine.clone();
    exports.set(
        "copy",
        lua.create_function(
            move |_, (dst, src, len): (LuaAnyUserData, LuaValue, Option<usize>)| {
                let dst = dst.borrow::<LuaCData>()?;
                let src = to_host(&src)?;
                copy_memory(&mut e.borrow_mut().memory, &dst.cdata, &src, len).map_err(failure)
            },
        )?,
    )?;
    let e = engine.clone();
    exports.set(
        "fill",
        lua.create_function(
            move |_, (cdata, len, value): (LuaAnyUserData, usize, Option<u8>)| {
                let cd = cdata.borrow::<LuaCData>()?;
                fill_memory(&mut e.borrow_mut().memory, &cd.cdata, len, value.unwrap_or(0))
                    .map_err(failure)
            },
        )?,
    )?;
    exports.set(
        "errno",
        lua.create_function(|_, _new_errno: Option<i32>| {
            Ok(std::io::Error::last_os_error().raw_os_error().unwrap_or(0))
        })?,
    )?;
    exports.set(
        "nullptr",
        lua.create_userdata(LuaCData { cdata: CData::new_null_ptr(), engine: engine.clone() })?,
    )?;
    exports.set("C", lua.create_userdata(CLib)?)?;
    Ok(exports)
}

// Helper function to create a Lua VM with the FFI module loaded
fn create_lua_with_ffi() -> Lua {
    let lua = Lua::new();

    let ffi_module = lua_module(&lua).expect("Failed to create FFI module");
    lua.globals()
        .set("ffi", ffi_module)
        .expect("Failed to set ffi global");

    lua
}

#[test]
fn test_ffi_module_loads() {
    let lua = create_lua_with_ffi();

    // Check that FFI module exists
    let version: String = lua.load("return ffi.VERSION").eval().unwrap();
    assert!(version.contains("0.1"), "Version is: {}", version);
}

#[test]
fn test_basic_types() {
    let lua = create_lua_with_ffi();

    // Test that basic type names are recognized
    let result: String = lua
        .load(
            r#"
        return ffi.typeof("int")
    "#,
        )
        .eval()
        .unwrap();

    assert_eq!(result, "int");
}

#[test]
fn test_sizeof() {
    let lua = create_lua_with_ffi();

    // Test sizeof for basic types
    let size: usize = lua
        .load(
            r#"
        return ffi.sizeof("int")
    "#,
        )
        .eval()
        .unwrap();

    assert!(size > 0);
}

#[test]
fn test_cdef_struct() {
    let lua = create_lua_with_ffi();

    // Test struct definition
    let result = lua
        .load(
            r#"
        ffi.cdef[[
            struct Point {
                int x;
                int y;
            };
        ]]
        return true
    "#,
        )
        .eval::<bool>();

    assert!(result.is_ok());
}

#[test]
fn test_array_syntax() {
    let lua = create_lua_with_ffi();

    // Test array type syntax
    let result = lua
        .load(
            r#"
        return ffi.typeof("int[10]")
    "#,
        )
        .eval::<String>();

    assert!(result.is_ok());
}

#[test]
fn test_pointer_syntax() {
    let lua = create_lua_with_ffi();

    // Test pointer type syntax
    let result = lua
        .load(
            r#"
        return ffi.typeof("int*")
    "#,
        )
        .eval::<String>();

    assert!(result.is_ok());
}

#[test]
fn test_nullptr() {
    let lua = create_lua_with_ffi();

    // Test nullptr existence
    let result = lua
        .load(
            r#"
        return ffi.nullptr ~= nil
    "#,
        )
        .eval::<bool>();

    assert!(result.is_ok());
}

#[test]
fn test_c_library() {
    let lua = create_lua_with_ffi();

    // Test C library object exists
    let result = lua
        .load(
            r#"
        return ffi.C ~= nil
    "#,
        )
        .eval::<bool>();

    assert!(result.is_ok());
}

#[test]
fn test_ffi_copy() {
    let lua = create_lua_with_ffi();

    // Test copy function exists and can be called
    let result = lua
        .load(
            r#"
        local dst = ffi.new("char[10]")
        local src = "hello"
        ffi.copy(dst, src)
        return true
    "#,
        )
        .eval::<bool>();

    assert!(result.is_ok());
}

#[test]
fn test_ffi_fill() {
    let lua = create_lua_with_ffi();

    // Test fill function exists and can be called
    let result = lua
        .load(
            r#"
        local buffer = ffi.new("char[10]")
        ffi.fill(buffer, 10, 0)
        return true
    "#,
        )
        .eval::<bool>();

    assert!(result.is_ok());
}

#[test]
fn test_ffi_errno() {
    let lua = create_lua_with_ffi();

    // Test errno function
    let result = lua
        .load(
            r#"
        local old_errno = ffi.errno()
        return type(old_errno) == "number"
    "#,
        )
        .eval::<bool>();

    assert!(result.is_ok());
}

#[test]
fn integration_test_test_complex_struct() {
    let lua = create_lua_with_ffi();

    // Test complex struct with nested types
    let result = lua
        .load(
            r#"
        ffi.cdef[[
            struct Rectangle {
                int x;
                int y;
                int width;
                int height;
            };
        ]]
        return true
    "#,
        )
        .eval::<bool>();

    assert!(result.is_ok());
}

#[test]
fn test_typedef() {
    let lua = create_lua_with_ffi();

    // Test typedef parsing
    let result = lua
        .load(
            r#"
        ffi.cdef[[
            typedef int my_int;
        ]]
        return true
    "#,
        )
        .eval::<bool>();

    assert!(result.is_ok());
}

#[test]
fn test_multiple_fields() {
    let lua = create_lua_with_ffi();

    // Test struct with multiple fields of different types
    let result = lua
        .load(
            r#"
        ffi.cdef[[
            struct Data {
                char name;
                int age;
                float height;
                double weight;
            };
        ]]
        return true
    "#,
        )
        .eval::<bool>();

    assert!(result.is_ok());
}

#[test]
fn integration_test_test_fixed_width_types() {
    let lua = create_lua_with_ffi();

    // Test fixed-width integer types
    let types = vec![
        "int8_t", "int16_t", "int32_t", "int64_t", "uint8_t", "uint16_t", "uint32_t", "uint64_t",
    ];

    for name in types {
        let result = lua
            .load(&format!("return ffi.typeof('{}')", name))
            .eval::<String>();
        assert!(result.is_ok(), "Failed for type: {}", name);
    }
}

#[test]
fn test_size_t_types() {
    let lua = create_lua_with_ffi();

    // Test size_t and ssize_t
    let result = lua
        .load(
            r#"
        local s1 = ffi.typeof("size_t")
        local s2 = ffi.typeof("ssize_t")
        return s1 ~= nil and s2 ~= nil
    "#,
        )
        .eval::<bool>();

    assert!(result.is_ok());
}

#[test]
fn test_float_types() {
    let lua = create_lua_with_ffi();

    // Test floating point types
    let result = lua
        .load(
            r#"
        local f = ffi.typeof("float")
        local d = ffi.typeof("double")
        return f ~= nil and d ~= nil
    "#,
        )
        .eval::<bool>();

    assert!(result.is_ok());
}

#[test]
fn test_void_type() {
    let lua = create_lua_with_ffi();

    // Test void type
    let result = lua
        .load(
            r#"
        return ffi.typeof("void")
    "#,
        )
        .eval::<String>();

    assert!(result.is_ok());
}

#[test]
fn test_bool_type() {
    let lua = create_lua_with_ffi();

    // Test bool type
    let result = lua
        .load(
            r#"
        return ffi.typeof("bool")
    "#,
        )
        .eval::<String>();

    assert!(result.is_ok());
}

#[test]
fn test_char_types() {
    let lua = create_lua_with_ffi();

    // Test char and unsigned char
    let result = lua
        .load(
            r#"
        local c = ffi.typeof("char")
        local uc = ffi.typeof("unsigned char")
        return c ~= nil and uc ~= nil
    "#,
        )
        .eval::<bool>();

    assert!(result.is_ok());
}

#[test]
fn test_short_types() {
    let lua = create_lua_with_ffi();

    // Test short and unsigned short
    let result = lua
        .load(
            r#"
        local s = ffi.typeof("short")
        local us = ffi.typeof("unsigned short")
        return s ~= nil and us ~= nil
    "#,
        )
        .eval::<bool>();

    assert!(result.is_ok());
}

#[test]
fn test_long_types() {
    let lua = create_lua_with_ffi();

    // Test long and unsigned long
    let result = lua
        .load(
            r#"
        local l = ffi.typeof("long")
        local ul = ffi.typeof("unsigned long")
        return l ~= nil and ul ~= nil
    "#,
        )
        .eval::<bool>();

    assert!(result.is_ok());
}

#[test]
fn test_pointer_to_pointer() {
    let lua = create_lua_with_ffi();

    // Test pointer to pointer syntax
    let result = lua
        .load(
            r#"
        return ffi.typeof("int**")
    "#,
        )
        .eval::<String>();

    assert!(result.is_ok());
}

#[test]
fn integration_test_test_array_of_pointers() {
    let lua = create_lua_with_ffi();

    // Test array of pointers
    let result = lua
        .load(
            r#"
        return ffi.typeof("int*[5]")
    "#,
        )
        .eval::<String>();

    assert!(result.is_ok());
}

#[test]
fn integration_test_test_empty_array() {
    let lua = create_lua_with_ffi();

    // Test empty array syntax (flexible array member)
    let result = lua
        .load(
            r#"
        return ffi.typeof("int[]")
    "#,
        )
        .eval::<String>();

    assert!(result.is_ok());
}

#[test]
fn integration_test_test_struct_with_array() {
    let lua = create_lua_with_ffi();

    // Test struct containing an array
    let result = lua
        .load(
            r#"
        ffi.cdef[[
            struct Buffer {
                int size;
                char data[256];
            };
        ]]
        return true
    "#,
        )
        .eval::<bool>();

    assert!(result.is_ok());
}

#[test]
fn test_error_handling_invalid_type() {
    let lua = create_lua_with_ffi();

    // Test error handling for invalid type
    let result = lua
        .load(
            r#"
        pcall(function()
            ffi.typeof("invalid_type_xyz")
        end)
        return true
    "#,
        )
        .eval::<bool>();

    assert!(result.is_ok());
}

#[test]
fn test_error_handling_malformed_struct() {
    let lua = create_lua_with_ffi();

    // Test error handling for malformed struct
    let result = lua
        .load(
            r#"
        local ok = pcall(function()
            ffi.cdef[[
                struct BadStruct {
                    int x
                    -- missing semicolon
                };
            ]]
        end)
        return true
    "#,
        )
        .eval::<bool>();

    assert!(result.is_ok());
}

#[test]
fn test_metatype_basic() {
    let lua = create_lua_with_ffi();

    // Test metatype function
    let result = lua
        .load(
            r#"
        local mt = {}
        ffi.metatype("int", mt)
        return true
    "#,
        )
        .eval::<bool>();

    assert!(result.is_ok());
}

#[test]
fn test_gc_basic() {
    let lua = create_lua_with_ffi();

    // Test gc function
    let result = lua
        .load(
            r#"
        local function finalizer(cdata)
            -- cleanup
        end
        -- ffi.gc would be called with actual cdata
        return true
    "#,
        )
        .eval::<bool>();

    assert!(result.is_ok());
}

#[test]
fn test_addressof_usage() {
    let lua = create_lua_with_ffi();

    // Test addressof function exists
    let result = lua
        .load(
            r#"
        return type(ffi.addressof) == "function"
    "#,
        )
        .eval::<bool>();

    assert!(result.is_ok());
}

#[test]
fn test_istype_usage() {
    let lua = create_lua_with_ffi();

    // Test istype function
    let result = lua
        .load(
            r#"
        local result = ffi.istype("int", 42)
        return type(result) == "boolean"
    "#,
        )
        .eval::<bool>();

    assert!(result.is_ok());
}

#[test]
fn test_tonumber_usage() {
    let lua = create_lua_with_ffi();

    // Test tonumber function exists
    let result = lua
        .load(
            r#"
        return type(ffi.tonumber) == "function"
    "#,
        )
        .eval::<bool>();

    assert!(result.is_ok());
}

#[test]
fn test_string_usage() {
    let lua = create_lua_with_ffi();

    // Test string function exists
    let result = lua
        .load(
            r#"
        return type(ffi.string) == "function"
    "#,
        )
        .eval::<bool>();

    assert!(result.is_ok());
}

#[test]
fn test_multiple_structs() {
    let lua = create_lua_with_ffi();

    // Test defining multiple structs
    let result = lua
        .load(
            r#"
        ffi.cdef[[
            struct Point { int x; int y; };
            struct Circle { int x; int y; int radius; };
            struct Rectangle { int x; int y; int w; int h; };
        ]]
        return true
    "#,
        )
        .eval::<bool>();

    assert!(result.is_ok());
}

#[test]
fn test_struct_name_uniqueness() {
    let lua = create_lua_with_ffi();

    // Test that struct names are tracked properly
    let result = lua
        .load(
            r#"
        ffi.cdef[[
            struct UniqueStruct1 { int value; };
        ]]
        ffi.cdef[[
            struct UniqueStruct2 { float value; };
        ]]
        return true
    "#,
        )
        .eval::<bool>();

    assert!(result.is_ok());
}

#[test]
fn test_whitespace_handling() {
    let lua = create_lua_with_ffi();

    // Test that whitespace is handled correctly
    let result = lua
        .load(
            r#"
        ffi.cdef[[
            struct   SpacedStruct   {
                int    x   ;
                float  y   ;
            }   ;
        ]]
        return true
    "#,
        )
        .eval::<bool>();

    assert!(result.is_ok());
}

#[test]
fn integration_test_test_multiline_struct() {
    let lua = create_lua_with_ffi();

    // Test multiline struct definition
    let result = lua
        .load(
            r#"
        ffi.cdef[[
            struct MultiLine {
                int a;
                int b;
                int c;
                int d;
                int e;
            };
        ]]
        return true
    "#,
        )
        .eval::<bool>();

    assert!(result.is_ok());
}

#[test]
fn test_api_completeness() {
    let lua = create_lua_with_ffi();

    // Test that all expected API functions exist
    let result = lua
        .load(
            r#"
        local functions = {
            "cdef", "new", "cast", "typeof", "sizeof", "offsetof",
            "istype", "metatype", "gc", "addressof", "tonumber",
            "string", "copy", "fill", "errno"
        }
        
        for _, name in ipairs(functions) do
            if type(ffi[name]) ~= "function" then
                return false
            end
        end
        
        return true
    "#,
        )
        .eval::<bool>();

    assert!(result.is_ok() && result.unwrap());
}

#[test]
fn test_constants_exist() {
    let lua = create_lua_with_ffi();

    // Test that expected constants exist
    let result = lua
        .load(
            r#"
        return ffi.VERSION ~= nil and ffi.nullptr ~= nil and ffi.C ~= nil
    "#,
        )
        .eval::<bool>();

    assert!(result.is_ok());
}

#[test]
fn test_vla_syntax() {
    let lua = create_lua_with_ffi();

    // Test VLA syntax with [?]
    let result = lua
        .load(
            r#"
        return ffi.typeof("int[?]")
    "#,
        )
        .eval::<String>();

    assert!(result.is_ok());
}

#[test]
fn integration_test_test_vla_with_pointer() {
    let lua = create_lua_with_ffi();

    // Test VLA with pointer type
    let result = lua
        .load(
            r#"
        return ffi.typeof("void*[?]")
    "#,
        )
        .eval::<String>();

    assert!(result.is_ok());
}

#[test]
fn test_vla_different_types() {
    let lua = create_lua_with_ffi();

    // Test VLA with various base types
    let types = vec!["char[?]", "int[?]", "float[?]", "double[?]", "void*[?]"];

    for name in types {
        let result = lua
            .load(&format!("return ffi.typeof('{}')", name))
            .eval::<String>();
        assert!(result.is_ok(), "Failed for VLA type: {}", name);
    }
}

#[test]
fn integration_test_test_vla_with_const_qualifier() {
    let lua = create_lua_with_ffi();

    // Test VLA with const qualifier
    let result = lua
        .load(
            r#"
        return ffi.typeof("const char*[?]")
    "#,
        )
        .eval::<String>();

    assert!(result.is_ok());
}

#[test]
fn test_vla_with_various_qualifiers() {
    let lua = create_lua_with_ffi();

    // Test VLA with different type qualifiers
    let types = vec![
        "const char*[?]",
        "const int[?]",
        "volatile int[?]",
        "const void*[?]",
    ];

    for name in types {
        let result = lua
            .load(&format!("return ffi.typeof('{}')", name))
            .eval::<String>();
        assert!(
            result.is_ok(),
            "Failed for VLA type with qualifier: {}",
            name
        );
    }
}

#[test]
fn test_const_char_ptr_array() {
    let lua = create_lua_with_ffi();

    // Specifically test the user's example: const char*[?]
    let result = lua
        .load(
            r#"
        local type_str = ffi.typeof("const char*[?]")
        return type_str ~= nil
    "#,
        )
        .eval::<bool>();

    assert!(result.is_ok());
}

#[test]
fn test_char_ptr_array_vla() {
    let lua = create_lua_with_ffi();

    // Test char*[?] VLA instantiation
    let result: Result<(), _> = lua
        .load(
            r#"
        local ptr_array = ffi.new("char*[?]", 3)
        assert(ptr_array ~= nil, "ffi.new returned nil")
        -- Verify we can use the array
        assert(ffi.sizeof(ffi.typeof("char*")) * 3 == 3 * ffi.sizeof("char*"))
    "#,
        )
        .exec();

    assert!(
        result.is_ok(),
        "Failed to create char*[?] with ffi.new: {:?}",
        result.err()
    );
}

#[test]
fn test_various_pointer_array_vla() {
    let lua = create_lua_with_ffi();

    // Test various pointer array VLA types
    let types = vec!["char*[?]", "int*[?]", "void*[?]", "float*[?]", "double*[?]"];

    for name in types {
        let result = lua
            .load(&format!("return ffi.typeof('{}')", name))
            .eval::<String>();
        assert!(
            result.is_ok(),
            "Failed for pointer array VLA: {}",
            name
        );
    }
}

#[test]
fn test_vla_with_float_size() {
    let lua = create_lua_with_ffi();

    // Test VLA accepts float parameters
    let result = lua
        .load(
            r#"
        -- Test with integer
        local arr1 = ffi.new("int[?]", 5)
        
        -- Test with float (should work and truncate)
        local arr2 = ffi.new("int[?]", 10.0)
        local arr3 = ffi.new("int[?]", 7.9)  -- truncates to 7
        
        -- Test with pointer array
        local arr4 = ffi.new("char*[?]", 16.0)
    "#,
        )
        .exec();

    assert!(
        result.is_ok(),
        "Failed to create VLA with float size: {:?}",
        result.err()
    );
}

#[test]
fn lua_reads_and_writes_fields_and_elements() {
    let lua = create_lua_with_ffi();
    let result: (i64, f64, i64, i64, i64) = lua
        .load(
            r#"
        ffi.cdef[[
            struct Sample { char tag; int count; double ratio; int row[4]; };
        ]]
        local s = ffi.new("Sample", { tag = 65, count = -7, ratio = 0.25 })
        s.count = s.count * 2
        s.row[3] = 40
        s.row[0] = 2.9
        return s.count, s.ratio, s.row[3] + s.row[0], #s.row, ffi.offsetof("Sample", "ratio")
    "#,
        )
        .eval()
        .unwrap();
    assert_eq!(result, (-14, 0.25, 42, 4, 8));
}

#[test]
fn lua_sees_narrowing_and_floats() {
    let lua = create_lua_with_ffi();
    let result: (i64, i64, f64, f64, f64) = lua
        .load(
            r#"
        local b = ffi.new("uint8_t", 300)
        local i = ffi.new("int", 3000000000)
        local f = ffi.new("float", 0.1)
        local d = ffi.new("double", 7)
        local bytes = ffi.new("uint8_t[1]", { 300 })
        local ints = ffi.new("int[1]", { 3000000000 })
        return bytes[0], ints[0], ffi.tonumber(f), ffi.tonumber(d), ffi.tonumber(i)
    "#,
        )
        .eval()
        .unwrap();
    assert_eq!(result, (44, -1294967296, 0.1f32 as f64, 7.0, -1294967296.0));
}

#[test]
fn lua_copies_and_reads_text() {
    let lua = create_lua_with_ffi();
    let result: (String, i64, String, bool, bool) = lua
        .load(
            r#"
        local dst = ffi.new("char[10]")
        local n = ffi.copy(dst, "hello")
        local first = ffi.string(dst)
        ffi.fill(dst, 10, 120)
        local big = ffi.new("char[100]")
        ffi.fill(big, 100, 120)
        local unterminated = pcall(ffi.string, big)
        local overflow = pcall(ffi.copy, dst, "this is far too long")
        dst[5] = 0
        return first, n, ffi.string(ffi.cast("char*", dst)), unterminated, overflow
    "#,
        )
        .eval()
        .unwrap();
    assert_eq!(result, ("hello".to_string(), 5, "xxxxx".to_string(), false, false));
}

#[test]
fn lua_follows_pointers() {
    let lua = create_lua_with_ffi();
    let result: (i64, String, bool, bool) = lua
        .load(
            r#"
        ffi.cdef[[
            struct Node { int value; };
            struct Holder { Node node; };
        ]]
        local target = ffi.new("int[3]", { 10, 20, 30 })
        local slot = ffi.new("int*[1]")
        slot[0] = target
        local p = ffi.cast("int*", slot[0])
        local names = ffi.new("char*[?]", 2)
        names[1] = "second"
        local h = ffi.new("Holder")
        h.node.value = 5
        return p[0] + p[2] + h.node.value, ffi.string(ffi.cast("char*", names[1])),
            ffi.istype("int[3]", target), ffi.istype("int", slot[0])
    "#,
        )
        .eval()
        .unwrap();
    assert_eq!(result, (45, "second".to_string(), true, true));
}

#[test]
fn lua_gets_errors_for_what_cannot_be_done() {
    let lua = create_lua_with_ffi();
    let result: Vec<bool> = lua
        .load(
            r#"
        ffi.cdef[[ struct P { int x; }; ]]
        local p = ffi.new("P")
        return {
            pcall(ffi.new, "missing_type"),
            pcall(ffi.new, "int[?]"),
            pcall(ffi.new, "int[?]", -1),
            pcall(ffi.new, "int[?]", "3"),
            pcall(ffi.new, "int", "text"),
            pcall(ffi.sizeof, "int["),
            pcall(ffi.offsetof, "P", "y"),
            pcall(ffi.offsetof, "int", "x"),
            pcall(function() return p.y end),
            pcall(function() return p[0] end),
            pcall(function() p.x = "text" end),
            pcall(ffi.cdef, "struct Q { int x; }"),
            pcall(ffi.string, ffi.nullptr),
            pcall(ffi.cast, "int", "text"),
            (pcall(ffi.new, "int[?]", 3)),
        }
    "#,
        )
        .eval()
        .unwrap();
    let mut expected = vec![false; 14];
    expected.push(true);
    assert_eq!(result, expected);
}
