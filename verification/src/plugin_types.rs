//! What the schema plugin's code generator decides for each field: the
//! variant of the field types in which enums are read as `EnumValue`,
//! readers measure themselves with `Detect`, and field ids are named
//! constants.

use vstd::prelude::*;
use vstd::string::StringExecFns;
use crate::codegen_types::{
    append_upper, entry_fields, is_i32_type, is_i64_type, is_map_field, is_number_type,
    is_u32_type, is_u64_type, label_of, mutable_key_type, rust_mutable_base_name, rust_type_name,
    spec_entry_fields, spec_is_map_field, spec_mutable_key_type, spec_rust_mutable_base_name,
    spec_rust_type_name, spec_type_title, text, type_of, type_title, upper, FieldShape, Registry,
    RegistryModel,
};
use crate::reflection::FieldDescriptorProto;

verus! {

/// The Rust type a value of type `ty` has in a mutable message.
pub open spec fn spec_mutable_value_type(reg: RegistryModel, ty: i32, type_ref: Seq<char>) -> Result<
    Seq<char>,
    Seq<char>,
> {
    if ty == 8 {
        Ok("bool"@)
    } else if is_i32_type(ty) {
        Ok("i32"@)
    } else if is_u32_type(ty) {
        Ok("u32"@)
    } else if is_i64_type(ty) {
        Ok("i64"@)
    } else if is_u64_type(ty) {
        Ok("u64"@)
    } else if ty == 2 {
        Ok("f32"@)
    } else if ty == 1 {
        Ok("f64"@)
    } else if ty == 9 {
        Ok("String"@)
    } else if ty == 12 {
        Ok("Vec<u8>"@)
    } else if ty == 14 {
        Ok("EnumValue"@)
    } else if ty == 11 {
        match spec_rust_mutable_base_name(reg, type_ref) {
            Ok(v) => Ok(v + "<'a>"@),
            Err(e) => Err(e),
        }
    } else {
        Err("unsupported mutable value type: "@ + spec_type_title(ty))
    }
}

/// The Rust type a value of type `ty` has in a mutable message.
pub fn mutable_value_type(reg: &Registry, ty: i32, type_ref: &str) -> (r: Result<String, String>)
    requires
        reg.wf(),
    ensures
        text(r) == spec_mutable_value_type(reg.model(), ty, type_ref@),
{
    if ty == 8 {
        Ok(String::from_str("bool"))
    } else if ty == 5 || ty == 17 || ty == 15 {
        Ok(String::from_str("i32"))
    } else if ty == 13 || ty == 7 {
        Ok(String::from_str("u32"))
    } else if ty == 3 || ty == 18 || ty == 16 {
        Ok(String::from_str("i64"))
    } else if ty == 4 || ty == 6 {
        Ok(String::from_str("u64"))
    } else if ty == 2 {
        Ok(String::from_str("f32"))
    } else if ty == 1 {
        Ok(String::from_str("f64"))
    } else if ty == 9 {
        Ok(String::from_str("String"))
    } else if ty == 12 {
        Ok(String::from_str("Vec<u8>"))
    } else if ty == 14 {
        Ok(String::from_str("EnumValue"))
    } else if ty == 11 {
        match rust_mutable_base_name(reg, type_ref) {
            Ok(v) => Ok(v.concat("<'a>")),
            Err(e) => Err(e),
        }
    } else {
        Err(String::from_str("unsupported mutable value type: ").concat(type_title(ty)))
    }
}


/// The Rust type a value of type `ty` is read as.
pub open spec fn spec_decode_type_name(reg: RegistryModel, ty: i32, type_ref: Seq<char>) -> Result<
    Seq<char>,
    Seq<char>,
> {
    if ty == 8 {
        Ok("bool"@)
    } else if is_i32_type(ty) {
        Ok("i32"@)
    } else if is_u32_type(ty) {
        Ok("u32"@)
    } else if is_i64_type(ty) {
        Ok("i64"@)
    } else if is_u64_type(ty) {
        Ok("u64"@)
    } else if ty == 2 {
        Ok("f32"@)
    } else if ty == 1 {
        Ok("f64"@)
    } else if ty == 14 {
        Ok("EnumValue"@)
    } else if ty == 9 || ty == 12 {
        Ok("StringView<'a>"@)
    } else if ty == 11 {
        match spec_rust_type_name(reg, type_ref) {
            Ok(v) => Ok(v + "<'a>"@),
            Err(e) => Err(e),
        }
    } else {
        Err("unsupported decode type: "@ + spec_type_title(ty))
    }
}

/// The Rust type a value of type `ty` is read as.
pub fn decode_type_name(reg: &Registry, ty: i32, type_ref: &str) -> (r: Result<String, String>)
    requires
        reg.wf(),
    ensures
        text(r) == spec_decode_type_name(reg.model(), ty, type_ref@),
{
    if ty == 8 {
        Ok(String::from_str("bool"))
    } else if ty == 5 || ty == 17 || ty == 15 {
        Ok(String::from_str("i32"))
    } else if ty == 13 || ty == 7 {
        Ok(String::from_str("u32"))
    } else if ty == 3 || ty == 18 || ty == 16 {
        Ok(String::from_str("i64"))
    } else if ty == 4 || ty == 6 {
        Ok(String::from_str("u64"))
    } else if ty == 2 {
        Ok(String::from_str("f32"))
    } else if ty == 1 {
        Ok(String::from_str("f64"))
    } else if ty == 14 {
        Ok(String::from_str("EnumValue"))
    } else if ty == 9 || ty == 12 {
        Ok(String::from_str("StringView<'a>"))
    } else if ty == 11 {
        match rust_type_name(reg, type_ref) {
            Ok(v) => Ok(v.concat("<'a>")),
            Err(e) => Err(e),
        }
    } else {
        Err(String::from_str("unsupported decode type: ").concat(type_title(ty)))
    }
}


/// The expression that measures a single value of type `ty` held in
/// `var`.
pub open spec fn spec_singular_detect_expr(
    reg: RegistryModel,
    ty: i32,
    type_ref: Seq<char>,
    var: Seq<char>,
) -> Result<Seq<char>, Seq<char>> {
    if ty == 8 || is_number_type(ty) {
        Ok(var + ".detect_scalar()"@)
    } else if ty == 9 || ty == 12 {
        Ok(var + ".detect_string()"@)
    } else if ty == 11 {
        match spec_rust_type_name(reg, type_ref) {
            Ok(v) => Ok(v + "::Detect("@ + var + ".object_words()?)"@),
            Err(e) => Err(e),
        }
    } else {
        Err("unsupported detect type: "@ + spec_type_title(ty))
    }
}

/// The expression that measures a single value of type `ty` held in
/// `var`.
pub fn singular_detect_expr(reg: &Registry, ty: i32, type_ref: &str, var: &str) -> (r: Result<
    String,
    String,
>)
    requires
        reg.wf(),
    ensures
        text(r) == spec_singular_detect_expr(reg.model(), ty, type_ref@, var@),
{
    if ty == 8 || ty == 5 || ty == 17 || ty == 15 || ty == 13 || ty == 7 || ty == 3 || ty == 18
        || ty == 16 || ty == 4 || ty == 6 || ty == 2 || ty == 1 || ty == 14 {
        Ok(String::from_str(var).concat(".detect_scalar()"))
    } else if ty == 9 || ty == 12 {
        Ok(String::from_str(var).concat(".detect_string()"))
    } else if ty == 11 {
        match rust_type_name(reg, type_ref) {
            Ok(v) => Ok(v.concat("::Detect(").concat(var).concat(".object_words()?)")),
            Err(e) => Err(e),
        }
    } else {
        Err(String::from_str("unsupported detect type: ").concat(type_title(ty)))
    }
}


/// The expression that measures a field held in `var`: a map by its key
/// and value, a repeated field by its items, another field by its value.
pub open spec fn spec_field_detect_expr(
    reg: RegistryModel,
    label: i32,
    ty: i32,
    type_ref: Seq<char>,
    var: Seq<char>,
) -> Result<Seq<char>, Seq<char>> {
    if spec_is_map_field(reg, label, ty, type_ref) {
        match spec_entry_fields(reg, type_ref, "missing map entry for "@) {
            Err(e) => Err(e),
            Ok((k, v)) => match spec_singular_detect_expr(reg, k.0, k.1, "key"@) {
                Err(e) => Err(e),
                Ok(key_expr) => match spec_singular_detect_expr(reg, v.0, v.1, "value"@) {
                    Err(e) => Err(e),
                    Ok(value_expr) => Ok(
                        "protocache_core::detect_map_with("@ + var + ".object_words()?, |key| "@
                            + key_expr + ", |value| "@ + value_expr + ")"@,
                    ),
                },
            },
        }
    } else if label == 3 {
        if ty == 8 {
            Ok(var + ".detect_string()"@)
        } else if is_number_type(ty) {
            Ok(var + ".detect_array()"@)
        } else {
            match spec_singular_detect_expr(reg, ty, type_ref, "item"@) {
                Err(e) => Err(e),
                Ok(item_expr) => Ok(
                    "protocache_core::detect_array_with("@ + var + ".object_words()?, |item| "@
                        + item_expr + ")"@,
                ),
            }
        }
    } else {
        spec_singular_detect_expr(reg, ty, type_ref, var)
    }
}

/// The expression that measures a field held in `var`.
pub fn field_detect_expr(reg: &Registry, label: i32, ty: i32, type_ref: &str, var: &str) -> (r:
    Result<String, String>)
    requires
        reg.wf(),
    ensures
        text(r) == spec_field_detect_expr(reg.model(), label, ty, type_ref@, var@),
{
    if is_map_field(reg, label, ty, type_ref) {
        let (k, v) = match entry_fields(reg, type_ref, "missing map entry for ") {
            Ok(kv) => kv,
            Err(e) => {
                return Err(e);
            },
        };
        let key_expr = match singular_detect_expr(reg, k.ty, k.type_ref.as_str(), "key") {
            Ok(x) => x,
            Err(e) => {
                return Err(e);
            },
        };
        let value_expr = match singular_detect_expr(reg, v.ty, v.type_ref.as_str(), "value") {
            Ok(x) => x,
            Err(e) => {
                return Err(e);
            },
        };
        return Ok(
            String::from_str("protocache_core::detect_map_with(").concat(var).concat(
                ".object_words()?, |key| ",
            ).concat(key_expr.as_str()).concat(", |value| ").concat(value_expr.as_str()).concat(
                ")",
            ),
        );
    }
    if label == 3 {
        if ty == 8 {
            return Ok(String::from_str(var).concat(".detect_string()"));
        }
        if ty == 5 || ty == 17 || ty == 15 || ty == 13 || ty == 7 || ty == 3 || ty == 18 || ty
            == 16 || ty == 4 || ty == 6 || ty == 2 || ty == 1 || ty == 14 {
            return Ok(String::from_str(var).concat(".detect_array()"));
        }
        let item_expr = match singular_detect_expr(reg, ty, type_ref, "item") {
            Ok(x) => x,
            Err(e) => {
                return Err(e);
            },
        };
        return Ok(
            String::from_str("protocache_core::detect_array_with(").concat(var).concat(
                ".object_words()?, |item| ",
            ).concat(item_expr.as_str()).concat(")"),
        );
    }
    singular_detect_expr(reg, ty, type_ref, var)
}


/// The reader type of a repeated number or boolean field, when it is one.
pub open spec fn spec_repeated_scalar_return(label: i32, ty: i32) -> Option<Seq<char>> {
    if label != 3 {
        None
    } else if ty == 8 {
        Some("Option<BoolArray<'a>>"@)
    } else if is_i32_type(ty) {
        Some("Option<ScalarArray<'a, i32>>"@)
    } else if is_u32_type(ty) {
        Some("Option<ScalarArray<'a, u32>>"@)
    } else if is_i64_type(ty) {
        Some("Option<ScalarArray<'a, i64>>"@)
    } else if is_u64_type(ty) {
        Some("Option<ScalarArray<'a, u64>>"@)
    } else if ty == 2 {
        Some("Option<ScalarArray<'a, f32>>"@)
    } else if ty == 1 {
        Some("Option<ScalarArray<'a, f64>>"@)
    } else if ty == 14 {
        Some("Option<ScalarArray<'a, EnumValue>>"@)
    } else {
        None
    }
}

/// The reader type of a repeated number or boolean field.
pub fn repeated_scalar_return(label: i32, ty: i32) -> (r: Option<String>)
    ensures
        match spec_repeated_scalar_return(label, ty) {
            Some(t) => r matches Some(s) && s@ == t,
            None => r is None,
        },
{
    if label != 3 {
        None
    } else if ty == 8 {
        Some(String::from_str("Option<BoolArray<'a>>"))
    } else if ty == 5 || ty == 17 || ty == 15 {
        Some(String::from_str("Option<ScalarArray<'a, i32>>"))
    } else if ty == 13 || ty == 7 {
        Some(String::from_str("Option<ScalarArray<'a, u32>>"))
    } else if ty == 3 || ty == 18 || ty == 16 {
        Some(String::from_str("Option<ScalarArray<'a, i64>>"))
    } else if ty == 4 || ty == 6 {
        Some(String::from_str("Option<ScalarArray<'a, u64>>"))
    } else if ty == 2 {
        Some(String::from_str("Option<ScalarArray<'a, f32>>"))
    } else if ty == 1 {
        Some(String::from_str("Option<ScalarArray<'a, f64>>"))
    } else if ty == 14 {
        Some(String::from_str("Option<ScalarArray<'a, EnumValue>>"))
    } else {
        None
    }
}

/// The expression that reads a repeated number or boolean field named
/// `name` from `array_expr`.
pub open spec fn spec_repeated_scalar_expr(ty: i32, name: Seq<char>, array_expr: Seq<char>) -> Result<
    Seq<char>,
    Seq<char>,
> {
    if ty == 8 {
        Ok("self.view.bools(Self::"@ + upper(name) + "_FIELD_ID"@ + ")"@)
    } else if is_i32_type(ty) {
        Ok(array_expr + ".scalars::<i32>()"@)
    } else if is_u32_type(ty) {
        Ok(array_expr + ".scalars::<u32>()"@)
    } else if is_i64_type(ty) {
        Ok(array_expr + ".scalars::<i64>()"@)
    } else if is_u64_type(ty) {
        Ok(array_expr + ".scalars::<u64>()"@)
    } else if ty == 2 {
        Ok(array_expr + ".scalars::<f32>()"@)
    } else if ty == 1 {
        Ok(array_expr + ".scalars::<f64>()"@)
    } else if ty == 14 {
        Ok(array_expr + ".scalars::<EnumValue>()"@)
    } else {
        Err("unsupported repeated scalar type: "@ + spec_type_title(ty))
    }
}

/// The expression that reads a repeated number or boolean field.
pub fn repeated_scalar_expr(ty: i32, name: &str, array_expr: &str) -> (r: Result<String, String>)
    ensures
        text(r) == spec_repeated_scalar_expr(ty, name@, array_expr@),
{
    if ty == 8 {
        let mut s = String::from_str("self.view.bools(Self::");
        append_upper(&mut s, name);
        s.append("_FIELD_ID");
        s.append(")");
        Ok(s)
    } else if ty == 5 || ty == 17 || ty == 15 {
        Ok(String::from_str(array_expr).concat(".scalars::<i32>()"))
    } else if ty == 13 || ty == 7 {
        Ok(String::from_str(array_expr).concat(".scalars::<u32>()"))
    } else if ty == 3 || ty == 18 || ty == 16 {
        Ok(String::from_str(array_expr).concat(".scalars::<i64>()"))
    } else if ty == 4 || ty == 6 {
        Ok(String::from_str(array_expr).concat(".scalars::<u64>()"))
    } else if ty == 2 {
        Ok(String::from_str(array_expr).concat(".scalars::<f32>()"))
    } else if ty == 1 {
        Ok(String::from_str(array_expr).concat(".scalars::<f64>()"))
    } else if ty == 14 {
        Ok(String::from_str(array_expr).concat(".scalars::<EnumValue>()"))
    } else {
        Err(String::from_str("unsupported repeated scalar type: ").concat(type_title(ty)))
    }
}


/// The reader type of a map field whose entry is registered as
/// `type_ref`.
pub open spec fn spec_map_view_return(reg: RegistryModel, type_ref: Seq<char>) -> Result<Seq<char>, Seq<char>> {
    match spec_entry_fields(reg, type_ref, "missing map entry for "@) {
        Err(e) => Err(e),
        Ok((k, v)) => match spec_decode_type_name(reg, k.0, k.1) {
            Err(e) => Err(e),
            Ok(kt) => match spec_decode_type_name(reg, v.0, v.1) {
                Err(e) => Err(e),
                Ok(vt) => Ok("ViewMap<'a, "@ + kt + ", "@ + vt + ">"@),
            },
        },
    }
}

/// The reader type of a map field.
pub fn map_view_return(reg: &Registry, type_ref: &str) -> (r: Result<String, String>)
    requires
        reg.wf(),
    ensures
        text(r) == spec_map_view_return(reg.model(), type_ref@),
{
    let (k, v) = match entry_fields(reg, type_ref, "missing map entry for ") {
        Ok(kv) => kv,
        Err(e) => {
            return Err(e);
        },
    };
    let kt = match decode_type_name(reg, k.ty, k.type_ref.as_str()) {
        Ok(t) => t,
        Err(e) => {
            return Err(e);
        },
    };
    let vt = match decode_type_name(reg, v.ty, v.type_ref.as_str()) {
        Ok(t) => t,
        Err(e) => {
            return Err(e);
        },
    };
    Ok(String::from_str("ViewMap<'a, ").concat(kt.as_str()).concat(", ").concat(vt.as_str()).concat(">"))
}

/// The type a field has in a mutable message: a mutable map, a mutable
/// array, a boxed message, or the value type.
pub open spec fn spec_mutable_field_type(reg: RegistryModel, label: i32, ty: i32, type_ref: Seq<char>) -> Result<
    Seq<char>,
    Seq<char>,
> {
    if spec_is_map_field(reg, label, ty, type_ref) {
        match spec_entry_fields(reg, type_ref, "missing map entry for "@) {
            Err(e) => Err(e),
            Ok((k, v)) => match spec_mutable_key_type(k.0) {
                Err(e) => Err(e),
                Ok(kt) => match spec_mutable_value_type(reg, v.0, v.1) {
                    Err(e) => Err(e),
                    Ok(vt) => Ok("MutableMap<'a, "@ + kt + ", "@ + vt + ">"@),
                },
            },
        }
    } else if label == 3 {
        match spec_mutable_value_type(reg, ty, type_ref) {
            Err(e) => Err(e),
            Ok(vt) => Ok("MutableArray<'a, "@ + vt + ">"@),
        }
    } else if ty == 11 {
        match spec_mutable_value_type(reg, ty, type_ref) {
            Err(e) => Err(e),
            Ok(vt) => Ok("Box<"@ + vt + ">"@),
        }
    } else {
        spec_mutable_value_type(reg, ty, type_ref)
    }
}

/// The mutable map type of an entry's key and value.
fn mutable_map_type(reg: &Registry, k: &FieldShape, v: &FieldShape) -> (r: Result<String, String>)
    requires
        reg.wf(),
    ensures
        text(r) == match spec_mutable_key_type(k.ty) {
            Err(e) => Err(e),
            Ok(kt) => match spec_mutable_value_type(reg.model(), v.ty, v.type_ref@) {
                Err(e) => Err(e),
                Ok(vt) => Ok("MutableMap<'a, "@ + kt + ", "@ + vt + ">"@),
            },
        },
{
    let kt = match mutable_key_type(k.ty) {
        Ok(t) => t,
        Err(e) => {
            return Err(e);
        },
    };
    let vt = match mutable_value_type(reg, v.ty, v.type_ref.as_str()) {
        Ok(t) => t,
        Err(e) => {
            return Err(e);
        },
    };
    Ok(String::from_str("MutableMap<'a, ").concat(kt.as_str()).concat(", ").concat(vt.as_str()).concat(">"))
}

/// The type a field has in a mutable message.
pub fn mutable_field_type(reg: &Registry, label: i32, ty: i32, type_ref: &str) -> (r: Result<
    String,
    String,
>)
    requires
        reg.wf(),
    ensures
        text(r) == spec_mutable_field_type(reg.model(), label, ty, type_ref@),
{
    if is_map_field(reg, label, ty, type_ref) {
        let (k, v) = match entry_fields(reg, type_ref, "missing map entry for ") {
            Ok(kv) => kv,
            Err(e) => {
                return Err(e);
            },
        };
        return mutable_map_type(reg, k, v);
    }
    if label == 3 {
        return match mutable_value_type(reg, ty, type_ref) {
            Ok(vt) => Ok(String::from_str("MutableArray<'a, ").concat(vt.as_str()).concat(">")),
            Err(e) => Err(e),
        };
    }
    if ty == 11 {
        return match mutable_value_type(reg, ty, type_ref) {
            Ok(vt) => Ok(String::from_str("Box<").concat(vt.as_str()).concat(">")),
            Err(e) => Err(e),
        };
    }
    mutable_value_type(reg, ty, type_ref)
}

/// The type a mutable message's getter of a field returns: the message
/// itself for a singular message field, else the field's type, by mutable
/// reference.
pub open spec fn spec_mutable_getter_return_type(reg: RegistryModel, label: i32, ty: i32, type_ref: Seq<char>) -> Result<
    Seq<char>,
    Seq<char>,
> {
    if label == 1 && ty == 11 && !spec_is_map_field(reg, label, ty, type_ref) {
        match spec_mutable_value_type(reg, ty, type_ref) {
            Err(e) => Err(e),
            Ok(vt) => Ok("&mut "@ + vt),
        }
    } else {
        match spec_mutable_field_type(reg, label, ty, type_ref) {
            Err(e) => Err(e),
            Ok(ft) => Ok("&mut "@ + ft),
        }
    }
}

/// The type a mutable message's getter of a field returns.
pub fn mutable_getter_return_type(reg: &Registry, label: i32, ty: i32, type_ref: &str) -> (r:
    Result<String, String>)
    requires
        reg.wf(),
    ensures
        text(r) == spec_mutable_getter_return_type(reg.model(), label, ty, type_ref@),
{
    if label == 1 && ty == 11 && !is_map_field(reg, label, ty, type_ref) {
        match mutable_value_type(reg, ty, type_ref) {
            Ok(vt) => Ok(String::from_str("&mut ").concat(vt.as_str())),
            Err(e) => Err(e),
        }
    } else {
        match mutable_field_type(reg, label, ty, type_ref) {
            Ok(ft) => Ok(String::from_str("&mut ").concat(ft.as_str())),
            Err(e) => Err(e),
        }
    }
}

/// The mutable type of an alias: a mutable map for an alias of a map,
/// else a mutable array.
pub open spec fn spec_alias_mutable_type(reg: RegistryModel, label: i32, ty: i32, type_ref: Seq<char>) -> Result<
    Seq<char>,
    Seq<char>,
> {
    if spec_is_map_field(reg, label, ty, type_ref) {
        match spec_entry_fields(reg, type_ref, "missing alias map entry for "@) {
            Err(e) => Err(e),
            Ok((k, v)) => match spec_mutable_key_type(k.0) {
                Err(e) => Err(e),
                Ok(kt) => match spec_mutable_value_type(reg, v.0, v.1) {
                    Err(e) => Err(e),
                    Ok(vt) => Ok("MutableMap<'a, "@ + kt + ", "@ + vt + ">"@),
                },
            },
        }
    } else {
        match spec_mutable_value_type(reg, ty, type_ref) {
            Err(e) => Err(e),
            Ok(vt) => Ok("MutableArray<'a, "@ + vt + ">"@),
        }
    }
}

/// The mutable type of an alias.
pub fn alias_mutable_type(reg: &Registry, label: i32, ty: i32, type_ref: &str) -> (r: Result<
    String,
    String,
>)
    requires
        reg.wf(),
    ensures
        text(r) == spec_alias_mutable_type(reg.model(), label, ty, type_ref@),
{
    if is_map_field(reg, label, ty, type_ref) {
        let (k, v) = match entry_fields(reg, type_ref, "missing alias map entry for ") {
            Ok(kv) => kv,
            Err(e) => {
                return Err(e);
            },
        };
        mutable_map_type(reg, k, v)
    } else {
        match mutable_value_type(reg, ty, type_ref) {
            Ok(vt) => Ok(String::from_str("MutableArray<'a, ").concat(vt.as_str()).concat(">")),
            Err(e) => Err(e),
        }
    }
}

/// Whether a field can reach past its message's cells: a map, a repeated
/// field, a message, a string or bytes.
pub open spec fn spec_field_needs_detect(reg: RegistryModel, field: FieldDescriptorProto) -> bool {
    let label = label_of(field.label);
    let ty = type_of(field.type_code);
    spec_is_map_field(reg, label, ty, field.type_ref@) || label == 3 || ty == 11 || ty == 9 || ty == 12
}

/// Whether a field can reach past its message's cells.
pub fn field_needs_detect(reg: &Registry, field: &FieldDescriptorProto) -> (r: bool)
    requires
        reg.wf(),
    ensures
        r == spec_field_needs_detect(reg.model(), *field),
{
    let label: i32 = crate::codegen_types::field_label(field.label);
    let ty: i32 = crate::codegen_types::field_type(field.type_code);
    if is_map_field(reg, label, ty, field.type_ref.as_str()) || label == 3 {
        return true;
    }
    ty == 11 || ty == 9 || ty == 12
}

} // verus!
