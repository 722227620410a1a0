//! The Rust code written for a schema: readers over message views and
//! mutable messages, with their getters, extents and encoders.

use vstd::prelude::*;
use vstd::string::StringExecFns;
use crate::codegen_types::{
alias_mutable_type, alias_target, append_signed, append_upper, entry_fields, field_detect_expr,
    field_label, field_type, find_rust_type, has_alias, is_i32_type, is_i64_type, is_map_field,
    is_number_type, is_u32_type, is_u64_type, label_of, live_fields_by_number, live_order,
    map_view_return, mutable_field_type, mutable_getter_return_type, repeated_scalar_expr,
    repeated_scalar_return, repeated_view_return, rust_type_name, singular_detect_expr,
    spec_alias_mutable_type, spec_entry_fields, spec_field_detect_expr, spec_is_map_field,
    spec_map_view_return, spec_mutable_field_type, spec_mutable_getter_return_type,
    spec_repeated_scalar_expr, spec_repeated_scalar_return, spec_repeated_view_return,
    spec_rust_type_name, spec_signed, spec_singular_detect_expr, spec_type_title, type_of,
    type_title, upper, AliasTarget, Registry, RegistryModel,
    push_char, text,
};
use crate::codegen_registry::{
    empty_model, full_of, is_alias_message, is_alias_msg, new_registry, opt_view, register_file,
    spec_register_file,
};
use crate::naming::{count_char, package_depth, package_prefix};
use crate::reflection::{
    DescriptorProto, EnumDescriptorProto, EnumValueDescriptorProto, FieldDescriptorProto,
    FileDescriptorProto,
};

verus! {

/// Four spaces for each level of indentation.
pub open spec fn spec_pad(indent: nat) -> Seq<char>
    decreases indent,
{
    if indent == 0 {
        Seq::empty()
    } else {
        spec_pad((indent - 1) as nat) + "    "@
    }
}

/// Four spaces for each level of indentation.
pub fn make_pad(indent: usize) -> (r: String)
    ensures
        r@ == spec_pad(indent as nat),
{
    let mut s = String::new();
    let mut i: usize = 0;
    while i < indent
        invariant
            i <= indent,
            s@ == spec_pad(i as nat),
        decreases indent - i,
    {
        s.append("    ");
        i += 1;
    }
    s
}

/// What an emitter gives: the text written so far, or its error.
pub open spec fn emitted(r: Result<(), String>, written: Seq<char>) -> Result<Seq<char>, Seq<char>> {
    match r {
        Ok(()) => Ok(written),
        Err(e) => Err(e@),
    }
}

/// The name of an enum value, or nothing.
pub open spec fn value_name(v: EnumValueDescriptorProto) -> Seq<char> {
    match v.name {
        Some(n) => n@,
        None => ""@,
    }
}

/// The number of an enum value, or zero.
pub open spec fn value_number(v: EnumValueDescriptorProto) -> i32 {
    match v.number {
        Some(n) => n,
        None => 0,
    }
}

/// The line of an enum value.
pub open spec fn spec_enum_value_line(acc: Seq<char>, pad: Seq<char>, v: EnumValueDescriptorProto) -> Seq<char> {
    acc + pad + "    "@ + value_name(v) + " = "@ + spec_signed((value_number(v)) as int) + ",\n"@
}

/// The lines of the first `i` values of an enum.
pub open spec fn spec_enum_values(acc: Seq<char>, pad: Seq<char>, values: Seq<EnumValueDescriptorProto>, i: int) -> Seq<char>
    decreases i,
{
    if i <= 0 {
        acc
    } else {
        spec_enum_value_line(spec_enum_values(acc, pad, values, i - 1), pad, values[i - 1])
    }
}

/// The Rust enum written for an enum of the schema.
pub open spec fn spec_enum(acc: Seq<char>, item: EnumDescriptorProto, pad: Seq<char>) -> Seq<char> {
    let head = acc + pad + "#[derive(Clone, Copy, Debug, Eq, PartialEq)]\n"@ + pad + "#[allow(non_camel_case_types)]\n"@ + pad + "#[repr(i32)]\n"@ + pad + "pub enum "@ + item.name@ + " {\n"@;
    let body = spec_enum_values(head, pad, item.values@, item.values@.len() as int);
    body + pad + "}\n\n"@
}

/// Writes the Rust enum for an enum of the schema.
pub fn generate_enum(out: &mut String, item: &EnumDescriptorProto, pad: &str)
    ensures
        final(out)@ == spec_enum(old(out)@, *item, pad@),
{
    let ghost start = out@;
    out.append(pad);
    out.append("#[derive(Clone, Copy, Debug, Eq, PartialEq)]\n");
    out.append(pad);
    out.append("#[allow(non_camel_case_types)]\n");
    out.append(pad);
    out.append("#[repr(i32)]\n");
    out.append(pad);
    out.append("pub enum ");
    out.append(item.name.as_str());
    out.append(" {\n");
    let ghost head = out@;
    let mut i: usize = 0;
    while i < item.values.len()
        invariant
            i <= item.values@.len(),
            out@ == spec_enum_values(head, pad@, item.values@, i as int),
        decreases item.values@.len() - i,
    {
        let v = &item.values[i];
        let name: &str = match &v.name {
            Some(n) => n.as_str(),
            None => "",
        };
        let number: i32 = match v.number {
            Some(n) => n,
            None => 0,
        };
        out.append(pad);
        out.append("    ");
        out.append(name);
        out.append(" = ");
        append_signed(out, number as i64);
        out.append(",\n");
        i += 1;
    }
    out.append(pad);
    out.append("}\n\n");
}

/// The getter a reader of a message has for one of its fields.
pub open spec fn spec_getter(acc: Seq<char>, reg: RegistryModel, field: FieldDescriptorProto, pad: Seq<char>) -> Result<Seq<char>, Seq<char>> {
    let label = label_of(field.label);
    let ty = type_of(field.type_code);
    let tr = field.type_ref@;
    if spec_is_map_field(reg, label, ty, tr) {
        match spec_map_view_return(reg, tr) {
            Err(e) => Err(e),
            Ok(rt) => Ok(acc + pad + "    pub fn "@ + field.name@ + "(self) -> Option<"@ + rt + "> {\n"@ + pad + "        Some(ViewMap::new(self.view.map("@ + spec_signed((field.number - 1) as int) + "usize)?))\n"@ + pad + "    }\n\n"@),
        }
    } else if label == 3 {
        match spec_repeated_scalar_return(label, ty) {
            Some(rt) => match spec_repeated_scalar_expr(ty, field.number, "self.view.array("@ + spec_signed(field.number - 1) + "usize)?"@) {
                Err(e) => Err(e),
                Ok(ex) => Ok(acc + pad + "    pub fn "@ + field.name@ + "(self) -> "@ + rt + " {\n"@ + pad + "        "@ + ex + "\n"@ + pad + "    }\n\n"@),
            },
            None => match spec_repeated_view_return(reg, label, ty, tr) {
                Err(e) => Err(e),
                Ok(Some(rt)) => Ok(acc + pad + "    pub fn "@ + field.name@ + "(self) -> Option<"@ + rt + "> {\n"@ + pad + "        Some(ViewArray::new(self.view.array("@ + spec_signed((field.number - 1) as int) + "usize)?))\n"@ + pad + "    }\n\n"@),
                Ok(None) => Ok(acc + pad + "    pub fn "@ + field.name@ + "(self) -> Option<ArrayView<'a>> {\n"@ + pad + "        self.view.array("@ + spec_signed((field.number - 1) as int) + "usize)\n"@ + pad + "    }\n\n"@),
            },
        }
    } else if ty == 9 {
        Ok(acc + pad + "    pub fn "@ + field.name@ + "(self) -> Option<&'a str> {\n"@ + pad + "        self.view.string("@ + spec_signed((field.number - 1) as int) + "usize)?.as_str()\n"@ + pad + "    }\n\n"@)
    } else if ty == 12 {
        Ok(acc + pad + "    pub fn "@ + field.name@ + "(self) -> Option<&'a [u8]> {\n"@ + pad + "        self.view.bytes("@ + spec_signed((field.number - 1) as int) + "usize)\n"@ + pad + "    }\n\n"@)
    } else if ty == 8 {
        Ok(acc + pad + "    pub fn "@ + field.name@ + "(self) -> bool {\n"@ + pad + "        self.view.scalar::<bool>("@ + spec_signed((field.number - 1) as int) + "usize).unwrap_or(false)\n"@ + pad + "    }\n\n"@)
    } else if is_i32_type(ty) {
        Ok(acc + pad + "    pub fn "@ + field.name@ + "(self) -> i32 {\n"@ + pad + "        self.view.scalar::<i32>("@ + spec_signed((field.number - 1) as int) + "usize).unwrap_or_default()\n"@ + pad + "    }\n\n"@)
    } else if is_u32_type(ty) {
        Ok(acc + pad + "    pub fn "@ + field.name@ + "(self) -> u32 {\n"@ + pad + "        self.view.scalar::<u32>("@ + spec_signed((field.number - 1) as int) + "usize).unwrap_or_default()\n"@ + pad + "    }\n\n"@)
    } else if is_i64_type(ty) {
        Ok(acc + pad + "    pub fn "@ + field.name@ + "(self) -> i64 {\n"@ + pad + "        self.view.scalar::<i64>("@ + spec_signed((field.number - 1) as int) + "usize).unwrap_or_default()\n"@ + pad + "    }\n\n"@)
    } else if is_u64_type(ty) {
        Ok(acc + pad + "    pub fn "@ + field.name@ + "(self) -> u64 {\n"@ + pad + "        self.view.scalar::<u64>("@ + spec_signed((field.number - 1) as int) + "usize).unwrap_or_default()\n"@ + pad + "    }\n\n"@)
    } else if ty == 2 {
        Ok(acc + pad + "    pub fn "@ + field.name@ + "(self) -> f32 {\n"@ + pad + "        self.view.scalar::<f32>("@ + spec_signed((field.number - 1) as int) + "usize).unwrap_or_default()\n"@ + pad + "    }\n\n"@)
    } else if ty == 1 {
        Ok(acc + pad + "    pub fn "@ + field.name@ + "(self) -> f64 {\n"@ + pad + "        self.view.scalar::<f64>("@ + spec_signed((field.number - 1) as int) + "usize).unwrap_or_default()\n"@ + pad + "    }\n\n"@)
    } else if ty == 14 {
        Ok(acc + pad + "    pub fn "@ + field.name@ + "(self) -> i32 {\n"@ + pad + "        self.view.scalar::<i32>("@ + spec_signed((field.number - 1) as int) + "usize).unwrap_or_default()\n"@ + pad + "    }\n\n"@)
    } else if ty == 11 {
        match spec_rust_type_name(reg, tr) {
            Err(e) => Err(e),
            Ok(rt) => if reg.is_alias(tr) {
                Ok(acc + pad + "    pub fn "@ + field.name@ + "(self) -> Option<"@ + rt + "<'a>> {\n"@ + pad + "        "@ + rt + "::from_words(self.view.field("@ + spec_signed((field.number - 1) as int) + "usize)?.object_words()?)\n"@ + pad + "    }\n\n"@)
            } else {
                Ok(acc + pad + "    pub fn "@ + field.name@ + "(self) -> Option<"@ + rt + "<'a>> {\n"@ + pad + "        Some("@ + rt + "::from_view(self.view.message("@ + spec_signed((field.number - 1) as int) + "usize)?))\n"@ + pad + "    }\n\n"@)
            },
        }
    } else {
        Err("unsupported field type "@ + spec_type_title(ty) + " for "@ + field.name@)
    }
}

/// A reader's getter for a singular `bool` field returns `bool` and falls
/// back to `false`, the proto default, when the field is absent: the text it
/// appends to `acc` opens `fn name(self) -> bool` and ends its expression with
/// `.unwrap_or(false)` on the line before the closing brace.
pub proof fn lemma_bool_getter_defaults_to_false(acc: Seq<char>, reg: RegistryModel, field: FieldDescriptorProto, pad: Seq<char>)
    requires
        field.type_code == Some(8i32),
        label_of(field.label) != 3,
    ensures
        spec_getter(acc, reg, field, pad) is Ok,
        ({
            let s = spec_getter(acc, reg, field, pad)->Ok_0;
            let head = acc + pad + "    pub fn "@ + field.name@ + "(self) -> bool {\n"@;
            let tail = ".unwrap_or(false)\n"@ + pad + "    }\n\n"@;
            &&& s.len() >= head.len() + tail.len()
            &&& s.subrange(0, head.len() as int) == head
            &&& s.subrange(s.len() - tail.len(), s.len() as int) == tail
        }),
{
    reveal_strlit("usize).unwrap_or(false)\n");
    reveal_strlit("usize)");
    reveal_strlit(".unwrap_or(false)\n");
    let s = spec_getter(acc, reg, field, pad)->Ok_0;
    let head = acc + pad + "    pub fn "@ + field.name@ + "(self) -> bool {\n"@;
    let mid = pad + "        self.view.scalar::<bool>("@ + spec_signed((field.number - 1) as int) + "usize)"@;
    let tail = ".unwrap_or(false)\n"@ + pad + "    }\n\n"@;
    assert("usize).unwrap_or(false)\n"@ =~= "usize)"@ + ".unwrap_or(false)\n"@);
    assert(s =~= head + mid + tail);
    assert(s.subrange(0, head.len() as int) =~= head);
    assert(s.subrange(s.len() - tail.len(), s.len() as int) =~= tail);
}

/// Writes the getter a reader of a message has for one of its fields.
pub fn generate_getter(out: &mut String, reg: &Registry, field: &FieldDescriptorProto, pad: &str) -> (r: Result<(), String>)
    requires
        reg.wf(),
        field.number > i32::MIN,
    ensures
        emitted(r, final(out)@) == spec_getter(old(out)@, reg.model(), *field, pad@),
{
    let label: i32 = field_label(field.label);
    let ty: i32 = field_type(field.type_code);
    let tr: &str = field.type_ref.as_str();
    if is_map_field(reg, label, ty, tr) {
        let rt = match map_view_return(reg, tr) {
            Ok(x) => x,
            Err(e) => {
                return Err(e);
            },
        };
        out.append(pad);
        out.append("    pub fn ");
        out.append(field.name.as_str());
        out.append("(self) -> Option<");
        out.append(rt.as_str());
        out.append("> {\n");
        out.append(pad);
        out.append("        Some(ViewMap::new(self.view.map(");
        append_signed(out, (field.number - 1) as i64);
        out.append("usize)?))\n");
        out.append(pad);
        out.append("    }\n\n");
        return Ok(());
    }
    if label == 3 {
        match repeated_scalar_return(label, ty) {
            Some(rt) => {
                let mut ae = String::from_str("self.view.array(");
                append_signed(&mut ae, (field.number - 1) as i64);
                ae.append("usize)?");
                let ex = match repeated_scalar_expr(ty, field.number, ae.as_str()) {
                    Ok(x) => x,
                    Err(e) => {
                        return Err(e);
                    },
                };
                out.append(pad);
                out.append("    pub fn ");
                out.append(field.name.as_str());
                out.append("(self) -> ");
                out.append(rt.as_str());
                out.append(" {\n");
                out.append(pad);
                out.append("        ");
                out.append(ex.as_str());
                out.append("\n");
                out.append(pad);
                out.append("    }\n\n");
                return Ok(());
            },
            None => {},
        }
        match repeated_view_return(reg, label, ty, tr) {
            Err(e) => {
                return Err(e);
            },
            Ok(Some(rt)) => {
                out.append(pad);
                out.append("    pub fn ");
                out.append(field.name.as_str());
                out.append("(self) -> Option<");
                out.append(rt.as_str());
                out.append("> {\n");
                out.append(pad);
                out.append("        Some(ViewArray::new(self.view.array(");
                append_signed(out, (field.number - 1) as i64);
                out.append("usize)?))\n");
                out.append(pad);
                out.append("    }\n\n");
            },
            Ok(None) => {
                out.append(pad);
                out.append("    pub fn ");
                out.append(field.name.as_str());
                out.append("(self) -> Option<ArrayView<'a>> {\n");
                out.append(pad);
                out.append("        self.view.array(");
                append_signed(out, (field.number - 1) as i64);
                out.append("usize)\n");
                out.append(pad);
                out.append("    }\n\n");
            },
        }
        return Ok(());
    }
    if ty == 9 {
        out.append(pad);
        out.append("    pub fn ");
        out.append(field.name.as_str());
        out.append("(self) -> Option<&'a str> {\n");
        out.append(pad);
        out.append("        self.view.string(");
        append_signed(out, (field.number - 1) as i64);
        out.append("usize)?.as_str()\n");
        out.append(pad);
        out.append("    }\n\n");
    } else if ty == 12 {
        out.append(pad);
        out.append("    pub fn ");
        out.append(field.name.as_str());
        out.append("(self) -> Option<&'a [u8]> {\n");
        out.append(pad);
        out.append("        self.view.bytes(");
        append_signed(out, (field.number - 1) as i64);
        out.append("usize)\n");
        out.append(pad);
        out.append("    }\n\n");
    } else if ty == 8 {
        out.append(pad);
        out.append("    pub fn ");
        out.append(field.name.as_str());
        out.append("(self) -> bool {\n");
        out.append(pad);
        out.append("        self.view.scalar::<bool>(");
        append_signed(out, (field.number - 1) as i64);
        out.append("usize).unwrap_or(false)\n");
        out.append(pad);
        out.append("    }\n\n");
    } else if ty == 5 || ty == 17 || ty == 15 {
        out.append(pad);
        out.append("    pub fn ");
        out.append(field.name.as_str());
        out.append("(self) -> i32 {\n");
        out.append(pad);
        out.append("        self.view.scalar::<i32>(");
        append_signed(out, (field.number - 1) as i64);
        out.append("usize).unwrap_or_default()\n");
        out.append(pad);
        out.append("    }\n\n");
    } else if ty == 13 || ty == 7 {
        out.append(pad);
        out.append("    pub fn ");
        out.append(field.name.as_str());
        out.append("(self) -> u32 {\n");
        out.append(pad);
        out.append("        self.view.scalar::<u32>(");
        append_signed(out, (field.number - 1) as i64);
        out.append("usize).unwrap_or_default()\n");
        out.append(pad);
        out.append("    }\n\n");
    } else if ty == 3 || ty == 18 || ty == 16 {
        out.append(pad);
        out.append("    pub fn ");
        out.append(field.name.as_str());
        out.append("(self) -> i64 {\n");
        out.append(pad);
        out.append("        self.view.scalar::<i64>(");
        append_signed(out, (field.number - 1) as i64);
        out.append("usize).unwrap_or_default()\n");
        out.append(pad);
        out.append("    }\n\n");
    } else if ty == 4 || ty == 6 {
        out.append(pad);
        out.append("    pub fn ");
        out.append(field.name.as_str());
        out.append("(self) -> u64 {\n");
        out.append(pad);
        out.append("        self.view.scalar::<u64>(");
        append_signed(out, (field.number - 1) as i64);
        out.append("usize).unwrap_or_default()\n");
        out.append(pad);
        out.append("    }\n\n");
    } else if ty == 2 {
        out.append(pad);
        out.append("    pub fn ");
        out.append(field.name.as_str());
        out.append("(self) -> f32 {\n");
        out.append(pad);
        out.append("        self.view.scalar::<f32>(");
        append_signed(out, (field.number - 1) as i64);
        out.append("usize).unwrap_or_default()\n");
        out.append(pad);
        out.append("    }\n\n");
    } else if ty == 1 {
        out.append(pad);
        out.append("    pub fn ");
        out.append(field.name.as_str());
        out.append("(self) -> f64 {\n");
        out.append(pad);
        out.append("        self.view.scalar::<f64>(");
        append_signed(out, (field.number - 1) as i64);
        out.append("usize).unwrap_or_default()\n");
        out.append(pad);
        out.append("    }\n\n");
    } else if ty == 14 {
        out.append(pad);
        out.append("    pub fn ");
        out.append(field.name.as_str());
        out.append("(self) -> i32 {\n");
        out.append(pad);
        out.append("        self.view.scalar::<i32>(");
        append_signed(out, (field.number - 1) as i64);
        out.append("usize).unwrap_or_default()\n");
        out.append(pad);
        out.append("    }\n\n");
    } else if ty == 11 {
        let rt = match rust_type_name(reg, tr) {
            Ok(x) => x,
            Err(e) => {
                return Err(e);
            },
        };
        if has_alias(reg, tr) {
        out.append(pad);
        out.append("    pub fn ");
        out.append(field.name.as_str());
        out.append("(self) -> Option<");
        out.append(rt.as_str());
        out.append("<'a>> {\n");
        out.append(pad);
        out.append("        ");
        out.append(rt.as_str());
        out.append("::from_words(self.view.field(");
        append_signed(out, (field.number - 1) as i64);
        out.append("usize)?.object_words()?)\n");
        out.append(pad);
        out.append("    }\n\n");
        } else {
        out.append(pad);
        out.append("    pub fn ");
        out.append(field.name.as_str());
        out.append("(self) -> Option<");
        out.append(rt.as_str());
        out.append("<'a>> {\n");
        out.append(pad);
        out.append("        Some(");
        out.append(rt.as_str());
        out.append("::from_view(self.view.message(");
        append_signed(out, (field.number - 1) as i64);
        out.append("usize)?))\n");
        out.append(pad);
        out.append("    }\n\n");
        }
    } else {
        return Err(String::from_str("unsupported field type ").concat(type_title(ty)).concat(" for ").concat(field.name.as_str()));
    }
    Ok(())
}

/// The getter a mutable message has for one of its fields.
pub open spec fn spec_mutable_getter(acc: Seq<char>, reg: RegistryModel, field: FieldDescriptorProto, pad: Seq<char>) -> Result<Seq<char>, Seq<char>> {
    let label = label_of(field.label);
    let ty = type_of(field.type_code);
    let tr = field.type_ref@;
    match spec_mutable_getter_return_type(reg, label, ty, tr) {
        Err(e) => Err(e),
        Ok(rt) => if label == 1 && ty == 11 && !spec_is_map_field(reg, label, ty, tr) {
            Ok(acc + pad + "    pub fn "@ + field.name@ + "(&mut self) -> "@ + rt + " {\n"@ + pad + "        self.__view__.get_field("@ + spec_signed((field.number - 1) as int) + "usize, &mut self._"@ + field.name@ + ").as_mut()\n"@ + pad + "    }\n\n"@)
        } else {
            Ok(acc + pad + "    pub fn "@ + field.name@ + "(&mut self) -> "@ + rt + " {\n"@ + pad + "        self.__view__.get_field("@ + spec_signed((field.number - 1) as int) + "usize, &mut self._"@ + field.name@ + ")\n"@ + pad + "    }\n\n"@)
        },
    }
}

/// Writes the getter a mutable message has for one of its fields.
pub fn generate_mutable_getter(out: &mut String, reg: &Registry, field: &FieldDescriptorProto, pad: &str) -> (r: Result<(), String>)
    requires
        reg.wf(),
        field.number > i32::MIN,
    ensures
        emitted(r, final(out)@) == spec_mutable_getter(old(out)@, reg.model(), *field, pad@),
{
    let label: i32 = field_label(field.label);
    let ty: i32 = field_type(field.type_code);
    let tr: &str = field.type_ref.as_str();
    let rt = match mutable_getter_return_type(reg, label, ty, tr) {
        Ok(x) => x,
        Err(e) => {
            return Err(e);
        },
    };
    if label == 1 && ty == 11 && !is_map_field(reg, label, ty, tr) {
        out.append(pad);
        out.append("    pub fn ");
        out.append(field.name.as_str());
        out.append("(&mut self) -> ");
        out.append(rt.as_str());
        out.append(" {\n");
        out.append(pad);
        out.append("        self.__view__.get_field(");
        append_signed(out, (field.number - 1) as i64);
        out.append("usize, &mut self._");
        out.append(field.name.as_str());
        out.append(").as_mut()\n");
        out.append(pad);
        out.append("    }\n\n");
    } else {
        out.append(pad);
        out.append("    pub fn ");
        out.append(field.name.as_str());
        out.append("(&mut self) -> ");
        out.append(rt.as_str());
        out.append(" {\n");
        out.append(pad);
        out.append("        self.__view__.get_field(");
        append_signed(out, (field.number - 1) as i64);
        out.append("usize, &mut self._");
        out.append(field.name.as_str());
        out.append(")\n");
        out.append(pad);
        out.append("    }\n\n");
    }
    Ok(())
}


/// Whether every field of a message can have its id written: its number is
/// above the least `i32`.
pub open spec fn numbers_ok(fields: Seq<FieldDescriptorProto>) -> bool {
    forall|i: int| 0 <= i < fields.len() ==> (#[trigger] fields[i]).number > i32::MIN
}

/// The check of one field in the extent of a message.
pub open spec fn spec_detect_field(acc: Seq<char>, reg: RegistryModel, field: FieldDescriptorProto, pad: Seq<char>) -> Result<Seq<char>, Seq<char>> {
    match spec_field_detect_expr(reg, label_of(field.label), type_of(field.type_code), field.type_ref@, "field"@) {
        Err(e) => Err(e),
        Ok(de) => Ok(acc + pad + "        if let Some(field) = core.field("@ + spec_signed((field.number - 1) as int) + "usize) {\n"@ + pad + "            protocache_core::detect_slice_end(words, "@ + de + "?, &mut end)?;\n"@ + pad + "        }\n"@),
    }
}

/// The checks of the last `k` fields of `order`, the last first.
pub open spec fn spec_detect_fields(acc: Seq<char>, reg: RegistryModel, fields: Seq<FieldDescriptorProto>, order: Seq<usize>, k: int, pad: Seq<char>) -> Result<Seq<char>, Seq<char>>
    decreases k,
{
    if k <= 0 {
        Ok(acc)
    } else {
        match spec_detect_fields(acc, reg, fields, order, k - 1, pad) {
            Err(e) => Err(e),
            Ok(t) => spec_detect_field(t, reg, fields[order[order.len() - k] as int], pad),
        }
    }
}

/// Once a check fails, the later checks keep its error.
proof fn lemma_detect_fields_err(acc: Seq<char>, reg: RegistryModel, fields: Seq<FieldDescriptorProto>, order: Seq<usize>, k: int, m: int, pad: Seq<char>)
    requires
        0 <= k <= m,
        spec_detect_fields(acc, reg, fields, order, k, pad) is Err,
    ensures
        spec_detect_fields(acc, reg, fields, order, m, pad) == spec_detect_fields(acc, reg, fields, order, k, pad),
    decreases m - k,
{
    if m > k {
        lemma_detect_fields_err(acc, reg, fields, order, k, m - 1, pad);
    }
}

/// The function a reader has for the extent of its message: the end of
/// its last field, the fields checked from the last.
pub open spec fn spec_message_detect_len(acc: Seq<char>, reg: RegistryModel, message: DescriptorProto, pad: Seq<char>) -> Result<Seq<char>, Seq<char>> {
    let order = live_order(message.fields@);
    let head = acc + pad + "    pub fn detect_len(words: &'a [u32]) -> Option<usize> {\n"@ + pad + "        let view = MessageView::detect(words)?;\n"@;
    if order.len() == 0 {
        Ok(head + pad + "        Some(view.len())\n"@ + pad + "    }\n"@)
    } else {
        let start = head + pad + "        let core = MessageView::new(words)?;\n"@ + pad + "        let mut end = view.len();\n"@;
        finish_detect(spec_detect_fields(start, reg, message.fields@, order, order.len() as int, pad), pad)
    }
}

/// The end of the function for the extent of a message, after its checks.
pub open spec fn finish_detect(r: Result<Seq<char>, Seq<char>>, pad: Seq<char>) -> Result<Seq<char>, Seq<char>> {
    match r {
        Err(e) => Err(e),
        Ok(t) => Ok(t + pad + "        Some(end)\n"@ + pad + "    }\n"@),
    }
}

/// Writes the function a reader has for the extent of its message.
pub fn write_message_detect_len(out: &mut String, reg: &Registry, message: &DescriptorProto, pad: &str) -> (r: Result<(), String>)
    requires
        reg.wf(),
        numbers_ok(message.fields@),
    ensures
        emitted(r, final(out)@) == spec_message_detect_len(old(out)@, reg.model(), *message, pad@),
{
    out.append(pad);
    out.append("    pub fn detect_len(words: &'a [u32]) -> Option<usize> {\n");
    out.append(pad);
    out.append("        let view = MessageView::detect(words)?;\n");
    let order: Vec<usize> = live_fields_by_number(&message.fields);
    if order.len() == 0 {
        out.append(pad);
        out.append("        Some(view.len())\n");
        out.append(pad);
        out.append("    }\n");
        return Ok(());
    }
    out.append(pad);
    out.append("        let core = MessageView::new(words)?;\n");
    out.append(pad);
    out.append("        let mut end = view.len();\n");
    let ghost start = out@;
    let n: usize = order.len();
    assert(spec_message_detect_len(old(out)@, reg.model(), *message, pad@) == finish_detect(spec_detect_fields(start, reg.model(), message.fields@, order@, n as int, pad@), pad@));
    let mut k: usize = 0;
    while k < n
        invariant
            k <= n,
            spec_message_detect_len(old(out)@, reg.model(), *message, pad@) == finish_detect(spec_detect_fields(start, reg.model(), message.fields@, order@, n as int, pad@), pad@),
            n == order@.len(),
            order@ == live_order(message.fields@),
            forall|i: int| 0 <= i < order@.len() ==> order@[i] < message.fields@.len(),
            reg.wf(),
            numbers_ok(message.fields@),
            spec_detect_fields(start, reg.model(), message.fields@, order@, k as int, pad@) == Ok::<Seq<char>, Seq<char>>(out@),
        decreases n - k,
    {
        let field: &FieldDescriptorProto = &message.fields[order[n - 1 - k]];
        assert(field.number > i32::MIN);
        let de = match field_detect_expr(reg, field_label(field.label), field_type(field.type_code), field.type_ref.as_str(), "field") {
            Ok(x) => x,
            Err(e) => {
                proof {
                    assert(spec_detect_fields(start, reg.model(), message.fields@, order@, (k + 1) as int, pad@) == Err::<Seq<char>, Seq<char>>(e@));
                    lemma_detect_fields_err(start, reg.model(), message.fields@, order@, (k + 1) as int, n as int, pad@);
                }
                return Err(e);
            },
        };
        out.append(pad);
        out.append("        if let Some(field) = core.field(");
        append_signed(out, (field.number - 1) as i64);
        out.append("usize) {\n");
        out.append(pad);
        out.append("            protocache_core::detect_slice_end(words, ");
        out.append(de.as_str());
        out.append("?, &mut end)?;\n");
        out.append(pad);
        out.append("        }\n");
        k += 1;
    }
    out.append(pad);
    out.append("        Some(end)\n");
    out.append(pad);
    out.append("    }\n");
    Ok(())
}

/// The function a reader of an alias of an array has for its extent.
pub open spec fn spec_alias_array_detect_len(acc: Seq<char>, reg: RegistryModel, field: FieldDescriptorProto, pad: Seq<char>) -> Result<Seq<char>, Seq<char>> {
    let ty = type_of(field.type_code);
    let head = acc + pad + "    pub fn detect_len(words: &'a [u32]) -> Option<usize> {\n"@;
    if is_number_type(ty) {
        Ok(head + pad + "        ArrayView::detect_len(words)\n"@ + pad + "    }\n"@)
    } else {
        match spec_singular_detect_expr(reg, ty, field.type_ref@, "item"@) {
            Err(e) => Err(e),
            Ok(de) => Ok(head + pad + "        Some(protocache_core::detect_array_with(words, |item| "@ + de + ")?.len())\n"@ + pad + "    }\n"@),
        }
    }
}

/// Writes the function a reader of an alias of an array has for its
/// extent.
pub fn write_alias_array_detect_len(out: &mut String, reg: &Registry, field: &FieldDescriptorProto, pad: &str) -> (r: Result<(), String>)
    requires
        reg.wf(),
    ensures
        emitted(r, final(out)@) == spec_alias_array_detect_len(old(out)@, reg.model(), *field, pad@),
{
    let ty: i32 = field_type(field.type_code);
    out.append(pad);
    out.append("    pub fn detect_len(words: &'a [u32]) -> Option<usize> {\n");
    if ty == 5 || ty == 17 || ty == 15 || ty == 13 || ty == 7 || ty == 3 || ty == 18 || ty == 16 || ty == 4 || ty == 6 || ty == 2 || ty == 1 || ty == 14 {
        out.append(pad);
        out.append("        ArrayView::detect_len(words)\n");
        out.append(pad);
        out.append("    }\n");
    } else {
        let de = match singular_detect_expr(reg, ty, field.type_ref.as_str(), "item") {
            Ok(x) => x,
            Err(e) => {
                return Err(e);
            },
        };
        out.append(pad);
        out.append("        Some(protocache_core::detect_array_with(words, |item| ");
        out.append(de.as_str());
        out.append(")?.len())\n");
        out.append(pad);
        out.append("    }\n");
    }
    Ok(())
}

/// The function a reader of an alias of a map has for its extent.
pub open spec fn spec_alias_map_detect_len(acc: Seq<char>, reg: RegistryModel, field: FieldDescriptorProto, pad: Seq<char>) -> Result<Seq<char>, Seq<char>> {
    match spec_entry_fields(reg, field.type_ref@, "missing alias map entry for "@) {
        Err(e) => Err(e),
        Ok((k, v)) => match spec_singular_detect_expr(reg, k.0, k.1, "key"@) {
            Err(e) => Err(e),
            Ok(ke) => match spec_singular_detect_expr(reg, v.0, v.1, "value"@) {
                Err(e) => Err(e),
                Ok(ve) => Ok(acc + pad + "    pub fn detect_len(words: &'a [u32]) -> Option<usize> {\n"@ + pad + "        Some(protocache_core::detect_map_with(words, |key| "@ + ke + ", |value| "@ + ve + ")?.len())\n"@ + pad + "    }\n"@),
            },
        },
    }
}

/// Writes the function a reader of an alias of a map has for its extent.
pub fn write_alias_map_detect_len(out: &mut String, reg: &Registry, field: &FieldDescriptorProto, pad: &str) -> (r: Result<(), String>)
    requires
        reg.wf(),
    ensures
        emitted(r, final(out)@) == spec_alias_map_detect_len(old(out)@, reg.model(), *field, pad@),
{
    let (k, v) = match entry_fields(reg, field.type_ref.as_str(), "missing alias map entry for ") {
        Ok(kv) => kv,
        Err(e) => {
            return Err(e);
        },
    };
    let ke = match singular_detect_expr(reg, k.ty, k.type_ref.as_str(), "key") {
        Ok(x) => x,
        Err(e) => {
            return Err(e);
        },
    };
    let ve = match singular_detect_expr(reg, v.ty, v.type_ref.as_str(), "value") {
        Ok(x) => x,
        Err(e) => {
            return Err(e);
        },
    };
    out.append(pad);
    out.append("    pub fn detect_len(words: &'a [u32]) -> Option<usize> {\n");
    out.append(pad);
    out.append("        Some(protocache_core::detect_map_with(words, |key| ");
    out.append(ke.as_str());
    out.append(", |value| ");
    out.append(ve.as_str());
    out.append(")?.len())\n");
    out.append(pad);
    out.append("    }\n");
    Ok(())
}

/// The start of a reader of an alias: its struct and its constructor.
pub open spec fn spec_alias_head(acc: Seq<char>, rn: Seq<char>, target: AliasTarget, pad: Seq<char>) -> Seq<char> {
    match target {
        AliasTarget::BoolArray => acc + pad + "#[derive(Clone, Copy, Debug)]\n"@ + pad + "pub struct "@ + rn + "<'a> {\n"@ + pad + "    words: &'a [u32],\n"@ + pad + "}\n\n"@ + pad + "impl<'a> "@ + rn + "<'a> {\n"@ + pad + "    pub fn from_words(words: &'a [u32]) -> Option<Self> {\n"@ + pad + "        protocache_core::StringView::new(words)?;\n"@ + pad + "        Some(Self { words })\n"@ + pad + "    }\n"@,
        AliasTarget::Array => acc + pad + "#[derive(Clone, Copy, Debug)]\n"@ + pad + "pub struct "@ + rn + "<'a> {\n"@ + pad + "    words: &'a [u32],\n"@ + pad + "}\n\n"@ + pad + "impl<'a> "@ + rn + "<'a> {\n"@ + pad + "    pub fn from_words(words: &'a [u32]) -> Option<Self> {\n"@ + pad + "        ArrayView::new(words)?;\n"@ + pad + "        Some(Self { words })\n"@ + pad + "    }\n"@,
        AliasTarget::MapEntries => acc + pad + "#[derive(Clone, Copy, Debug)]\n"@ + pad + "pub struct "@ + rn + "<'a> {\n"@ + pad + "    words: &'a [u32],\n"@ + pad + "}\n\n"@ + pad + "impl<'a> "@ + rn + "<'a> {\n"@ + pad + "    pub fn from_words(words: &'a [u32]) -> Option<Self> {\n"@ + pad + "        MapView::new(words)?;\n"@ + pad + "        Some(Self { words })\n"@ + pad + "    }\n"@,
    }
}

/// The extent functions of a reader of an alias.
pub open spec fn spec_alias_detect(acc: Seq<char>, reg: RegistryModel, field: FieldDescriptorProto, target: AliasTarget, pad: Seq<char>) -> Result<Seq<char>, Seq<char>> {
    match target {
        AliasTarget::BoolArray => Ok(acc + pad + "    pub fn detect_len(words: &'a [u32]) -> Option<usize> {\n"@ + pad + "        protocache_core::StringView::detect_len(words)\n"@ + pad + "    }\n"@ + pad + "    pub fn detect(words: &'a [u32]) -> Option<&'a [u32]> {\n"@ + pad + "        protocache_core::StringView::detect(words)\n"@ + pad + "    }\n"@),
        AliasTarget::Array => match spec_alias_array_detect_len(acc, reg, field, pad) {
            Err(e) => Err(e),
            Ok(t) => Ok(t + pad + "    pub fn detect(words: &'a [u32]) -> Option<&'a [u32]> {\n"@ + pad + "        Some(words.get(..Self::detect_len(words)?)?)\n"@ + pad + "    }\n"@),
        },
        AliasTarget::MapEntries => match spec_alias_map_detect_len(acc, reg, field, pad) {
            Err(e) => Err(e),
            Ok(t) => Ok(t + pad + "    pub fn detect(words: &'a [u32]) -> Option<&'a [u32]> {\n"@ + pad + "        Some(words.get(..Self::detect_len(words)?)?)\n"@ + pad + "    }\n"@),
        },
    }
}

/// The raw accessors of a reader of an alias.
pub open spec fn spec_alias_raw(acc: Seq<char>, target: AliasTarget, pad: Seq<char>) -> Seq<char> {
    match target {
        AliasTarget::BoolArray => acc + pad + "    pub fn raw_words(self) -> &'a [u32] { self.words }\n"@ + pad + "    pub fn raw(self) -> Option<BoolArray<'a>> {\n"@ + pad + "        Some(protocache_core::StringView::new(self.words)?.as_bool_array())\n"@ + pad + "    }\n"@,
        AliasTarget::Array => acc + pad + "    pub fn raw_words(self) -> &'a [u32] { self.words }\n"@ + pad + "    pub fn raw(self) -> Option<ArrayView<'a>> {\n"@ + pad + "        ArrayView::new(self.words)\n"@ + pad + "    }\n"@,
        AliasTarget::MapEntries => acc + pad + "    pub fn raw_words(self) -> &'a [u32] { self.words }\n"@ + pad + "    pub fn raw(self) -> Option<MapView<'a>> {\n"@ + pad + "        MapView::new(self.words)\n"@ + pad + "    }\n"@,
    }
}

/// The typed accessor of a reader of an alias: the values of an array, the
/// entries of a map, nothing for booleans.
pub open spec fn spec_alias_values(acc: Seq<char>, reg: RegistryModel, field: FieldDescriptorProto, target: AliasTarget, pad: Seq<char>) -> Result<Seq<char>, Seq<char>> {
    let label = label_of(field.label);
    let ty = type_of(field.type_code);
    let tr = field.type_ref@;
    match target {
        AliasTarget::Array => match spec_repeated_scalar_return(label, ty) {
            Some(rt) => match spec_repeated_scalar_expr(ty, field.number, "ArrayView::new(self.words)?"@) {
                Err(e) => Err(e),
                Ok(ex) => Ok(acc + pad + "    pub fn values(self) -> "@ + rt + " {\n"@ + pad + "        "@ + ex + "\n"@ + pad + "    }\n"@),
            },
            None => match spec_repeated_view_return(reg, label, ty, tr) {
                Err(e) => Err(e),
                Ok(Some(rt)) => Ok(acc + pad + "    pub fn values(self) -> Option<"@ + rt + "> {\n"@ + pad + "        Some(ViewArray::new(ArrayView::new(self.words)?))\n"@ + pad + "    }\n"@),
                Ok(None) => Ok(acc),
            },
        },
        AliasTarget::MapEntries => match spec_map_view_return(reg, tr) {
            Err(e) => Err(e),
            Ok(rt) => Ok(acc + pad + "    pub fn entries(self) -> Option<"@ + rt + "> {\n"@ + pad + "        Some(ViewMap::new(MapView::new(self.words)?))\n"@ + pad + "    }\n"@),
        },
        AliasTarget::BoolArray => Ok(acc),
    }
}

/// The end of a reader of an alias: its decoding, its name, and its
/// mutable type.
pub open spec fn spec_alias_tail(r: Result<Seq<char>, Seq<char>>, reg: RegistryModel, field: FieldDescriptorProto, rn: Seq<char>, full: Seq<char>, pad: Seq<char>) -> Result<Seq<char>, Seq<char>> {
    match r {
        Err(e) => Err(e),
        Ok(acc) => {
            let t = acc + pad + "}\n\n"@ + pad + "impl<'a> FieldDecode<'a> for "@ + rn + "<'a> {\n"@ + pad + "    fn decode(field: FieldView<'a>) -> Option<Self> {\n"@ + pad + "        Self::from_words(field.object_words()?)\n"@ + pad + "    }\n"@ + pad + "}\n\n"@ + pad + "impl GeneratedDescriptor for "@ + rn + "<'_> {\n"@ + pad + "    const FULL_NAME: &'static str = \""@ + full + "\";\n"@ + pad + "}\n\n"@;
            match spec_alias_mutable_type(reg, label_of(field.label), type_of(field.type_code), field.type_ref@) {
                Err(e) => Err(e),
                Ok(mt) => Ok(t + pad + "pub type "@ + rn + "Mutable<'a> = "@ + mt + ";\n\n"@),
            }
        },
    }
}

/// The reader of an alias registered as `full`.
#[verifier::opaque]
pub open spec fn spec_alias(acc: Seq<char>, reg: RegistryModel, message: DescriptorProto, full: Seq<char>, pad: Seq<char>) -> Result<Seq<char>, Seq<char>> {
    match reg.rust_type_of(full) {
        None => Err("missing alias rust name for "@ + full),
        Some(rn) => match reg.alias_of(full) {
            None => Err("missing alias target for "@ + full),
            Some(target) => {
                let field = message.fields@[0];
                let detected = spec_alias_detect(spec_alias_head(acc, rn, target, pad), reg, field, target, pad);
                let valued = match detected {
                    Err(e) => Err(e),
                    Ok(t) => spec_alias_values(spec_alias_raw(t, target, pad), reg, field, target, pad),
                };
                spec_alias_tail(valued, reg, field, rn, full, pad)
            },
        },
    }
}

/// Writes the reader of an alias registered as `full`.
pub fn generate_alias(out: &mut String, reg: &Registry, message: &DescriptorProto, full: &str, pad: &str) -> (r: Result<(), String>)
    requires
        reg.wf(),
        message.fields@.len() >= 1,
        message.fields@[0].number > i32::MIN,
    ensures
        emitted(r, final(out)@) == spec_alias(old(out)@, reg.model(), *message, full@, pad@),
{
    proof {
        reveal(spec_alias);
    }
    let rn: String = match find_rust_type(reg, full) {
        Some(x) => x,
        None => {
            return Err(String::from_str("missing alias rust name for ").concat(full));
        },
    };
    let target: AliasTarget = match alias_target(reg, full) {
        Some(t) => t,
        None => {
            return Err(String::from_str("missing alias target for ").concat(full));
        },
    };
    let field: &FieldDescriptorProto = &message.fields[0];
    let ghost start = out@;
    out.append(pad);
    out.append("#[derive(Clone, Copy, Debug)]\n");
    out.append(pad);
    out.append("pub struct ");
    out.append(rn.as_str());
    out.append("<'a> {\n");
    out.append(pad);
    out.append("    words: &'a [u32],\n");
    out.append(pad);
    out.append("}\n\n");
    out.append(pad);
    out.append("impl<'a> ");
    out.append(rn.as_str());
    out.append("<'a> {\n");
    out.append(pad);
    out.append("    pub fn from_words(words: &'a [u32]) -> Option<Self> {\n");
    match target {
        AliasTarget::BoolArray => {
            out.append(pad);
            out.append("        protocache_core::StringView::new(words)?;\n");
        },
        AliasTarget::Array => {
            out.append(pad);
            out.append("        ArrayView::new(words)?;\n");
        },
        AliasTarget::MapEntries => {
            out.append(pad);
            out.append("        MapView::new(words)?;\n");
        },
    }
    out.append(pad);
    out.append("        Some(Self { words })\n");
    out.append(pad);
    out.append("    }\n");
    assert(out@ == spec_alias_head(start, rn@, target, pad@));
    let ghost head = out@;
    match target {
        AliasTarget::BoolArray => {
            out.append(pad);
            out.append("    pub fn detect_len(words: &'a [u32]) -> Option<usize> {\n");
            out.append(pad);
            out.append("        protocache_core::StringView::detect_len(words)\n");
            out.append(pad);
            out.append("    }\n");
            out.append(pad);
            out.append("    pub fn detect(words: &'a [u32]) -> Option<&'a [u32]> {\n");
            out.append(pad);
            out.append("        protocache_core::StringView::detect(words)\n");
            out.append(pad);
            out.append("    }\n");
        },
        AliasTarget::Array => {
            match write_alias_array_detect_len(out, reg, field, pad) {
                Ok(()) => {},
                Err(e) => {
                    return Err(e);
                },
            }
            let ghost t = out@;
            out.append(pad);
            out.append("    pub fn detect(words: &'a [u32]) -> Option<&'a [u32]> {\n");
            out.append(pad);
            out.append("        Some(words.get(..Self::detect_len(words)?)?)\n");
            out.append(pad);
            out.append("    }\n");
        },
        AliasTarget::MapEntries => {
            match write_alias_map_detect_len(out, reg, field, pad) {
                Ok(()) => {},
                Err(e) => {
                    return Err(e);
                },
            }
            out.append(pad);
            out.append("    pub fn detect(words: &'a [u32]) -> Option<&'a [u32]> {\n");
            out.append(pad);
            out.append("        Some(words.get(..Self::detect_len(words)?)?)\n");
            out.append(pad);
            out.append("    }\n");
        },
    }
    assert(spec_alias_detect(head, reg.model(), *field, target, pad@) == Ok::<Seq<char>, Seq<char>>(out@));
    let ghost detected = out@;
    out.append(pad);
    out.append("    pub fn raw_words(self) -> &'a [u32] { self.words }\n");
    match target {
        AliasTarget::BoolArray => {
            out.append(pad);
            out.append("    pub fn raw(self) -> Option<BoolArray<'a>> {\n");
            out.append(pad);
            out.append("        Some(protocache_core::StringView::new(self.words)?.as_bool_array())\n");
            out.append(pad);
            out.append("    }\n");
        },
        AliasTarget::Array => {
            out.append(pad);
            out.append("    pub fn raw(self) -> Option<ArrayView<'a>> {\n");
            out.append(pad);
            out.append("        ArrayView::new(self.words)\n");
            out.append(pad);
            out.append("    }\n");
        },
        AliasTarget::MapEntries => {
            out.append(pad);
            out.append("    pub fn raw(self) -> Option<MapView<'a>> {\n");
            out.append(pad);
            out.append("        MapView::new(self.words)\n");
            out.append(pad);
            out.append("    }\n");
        },
    }
    assert(out@ == spec_alias_raw(detected, target, pad@));
    let ghost raw = out@;
    let label: i32 = field_label(field.label);
    let ty: i32 = field_type(field.type_code);
    let tr: &str = field.type_ref.as_str();
    match target {
        AliasTarget::Array => {
            match repeated_scalar_return(label, ty) {
                Some(rt) => {
                    let ex = match repeated_scalar_expr(ty, field.number, "ArrayView::new(self.words)?") {
                        Ok(x) => x,
                        Err(e) => {
                            return Err(e);
                        },
                    };
                    out.append(pad);
                    out.append("    pub fn values(self) -> ");
                    out.append(rt.as_str());
                    out.append(" {\n");
                    out.append(pad);
                    out.append("        ");
                    out.append(ex.as_str());
                    out.append("\n");
                    out.append(pad);
                    out.append("    }\n");
                },
                None => {
                    match repeated_view_return(reg, label, ty, tr) {
                        Err(e) => {
                            return Err(e);
                        },
                        Ok(Some(rt)) => {
                            out.append(pad);
                            out.append("    pub fn values(self) -> Option<");
                            out.append(rt.as_str());
                            out.append("> {\n");
                            out.append(pad);
                            out.append("        Some(ViewArray::new(ArrayView::new(self.words)?))\n");
                            out.append(pad);
                            out.append("    }\n");
                        },
                        Ok(None) => {},
                    }
                },
            }
        },
        AliasTarget::MapEntries => {
            let rt = match map_view_return(reg, tr) {
                Ok(x) => x,
                Err(e) => {
                    return Err(e);
                },
            };
            out.append(pad);
            out.append("    pub fn entries(self) -> Option<");
            out.append(rt.as_str());
            out.append("> {\n");
            out.append(pad);
            out.append("        Some(ViewMap::new(MapView::new(self.words)?))\n");
            out.append(pad);
            out.append("    }\n");
        },
        AliasTarget::BoolArray => {},
    }
    assert(spec_alias_values(raw, reg.model(), *field, target, pad@) == Ok::<Seq<char>, Seq<char>>(out@));
    out.append(pad);
    out.append("}\n\n");
    out.append(pad);
    out.append("impl<'a> FieldDecode<'a> for ");
    out.append(rn.as_str());
    out.append("<'a> {\n");
    out.append(pad);
    out.append("    fn decode(field: FieldView<'a>) -> Option<Self> {\n");
    out.append(pad);
    out.append("        Self::from_words(field.object_words()?)\n");
    out.append(pad);
    out.append("    }\n");
    out.append(pad);
    out.append("}\n\n");
    out.append(pad);
    out.append("impl GeneratedDescriptor for ");
    out.append(rn.as_str());
    out.append("<'_> {\n");
    out.append(pad);
    out.append("    const FULL_NAME: &'static str = \"");
    out.append(full);
    out.append("\";\n");
    out.append(pad);
    out.append("}\n\n");
    let mt = match alias_mutable_type(reg, label, ty, tr) {
        Ok(x) => x,
        Err(e) => {
            return Err(e);
        },
    };
    out.append(pad);
    out.append("pub type ");
    out.append(rn.as_str());
    out.append("Mutable<'a> = ");
    out.append(mt.as_str());
    out.append(";\n\n");
    Ok(())
}

/// The field id constant of one field.
pub open spec fn spec_const_line(acc: Seq<char>, field: FieldDescriptorProto, pad: Seq<char>) -> Seq<char> {
    acc + pad + "    pub const "@ + upper(field.name@) + "_FIELD_ID: usize = "@ + spec_signed((field.number - 1) as int) + ";\n"@
}

/// The field id constants of the first `k` fields of `order`.
pub open spec fn spec_consts(acc: Seq<char>, fields: Seq<FieldDescriptorProto>, order: Seq<usize>, k: int, pad: Seq<char>) -> Seq<char>
    decreases k,
{
    if k <= 0 {
        acc
    } else {
        spec_const_line(spec_consts(acc, fields, order, k - 1, pad), fields[order[k - 1] as int], pad)
    }
}

/// The getters of the first `k` fields of `order`.
pub open spec fn spec_getters(acc: Seq<char>, reg: RegistryModel, fields: Seq<FieldDescriptorProto>, order: Seq<usize>, k: int, pad: Seq<char>) -> Result<Seq<char>, Seq<char>>
    decreases k,
{
    if k <= 0 {
        Ok(acc)
    } else {
        match spec_getters(acc, reg, fields, order, k - 1, pad) {
            Err(e) => Err(e),
            Ok(t) => spec_getter(t, reg, fields[order[k - 1] as int], pad),
        }
    }
}

/// Once a getter fails, the later getters keep its error.
proof fn lemma_getters_err(acc: Seq<char>, reg: RegistryModel, fields: Seq<FieldDescriptorProto>, order: Seq<usize>, k: int, m: int, pad: Seq<char>)
    requires
        0 <= k <= m,
        spec_getters(acc, reg, fields, order, k, pad) is Err,
    ensures
        spec_getters(acc, reg, fields, order, m, pad) == spec_getters(acc, reg, fields, order, k, pad),
    decreases m - k,
{
    if m > k {
        lemma_getters_err(acc, reg, fields, order, k, m - 1, pad);
    }
}

/// The end of a reader of a message: its decoding and its name.
pub open spec fn finish_regular(r: Result<Seq<char>, Seq<char>>, rn: Seq<char>, full: Seq<char>, pad: Seq<char>) -> Result<Seq<char>, Seq<char>> {
    match r {
        Err(e) => Err(e),
        Ok(acc) => Ok(acc + pad + "}\n\n"@ + pad + "impl<'a> FieldDecode<'a> for "@ + rn + "<'a> {\n"@ + pad + "    fn decode(field: FieldView<'a>) -> Option<Self> {\n"@ + pad + "        Some(Self::from_view(field.message()?))\n"@ + pad + "    }\n"@ + pad + "}\n\n"@ + pad + "impl<'a> GeneratedMessage<'a> for "@ + rn + "<'a> {\n"@ + pad + "    fn from_message_view(view: MessageView<'a>) -> Self {\n"@ + pad + "        Self::from_view(view)\n"@ + pad + "    }\n"@ + pad + "}\n\n"@ + pad + "impl GeneratedDescriptor for "@ + rn + "<'_> {\n"@ + pad + "    const FULL_NAME: &'static str = \""@ + full + "\";\n"@ + pad + "}\n\n"@),
    }
}

/// The reader of a message registered as `full`: its struct, its extent,
/// its field ids and its getters, by field number.
#[verifier::opaque]
pub open spec fn spec_regular(acc: Seq<char>, reg: RegistryModel, message: DescriptorProto, full: Seq<char>, pad: Seq<char>) -> Result<Seq<char>, Seq<char>> {
    match reg.rust_type_of(full) {
        None => Err("missing rust name for "@ + full),
        Some(rn) => {
            let head = acc + pad + "#[derive(Clone, Copy, Debug)]\n"@ + pad + "pub struct "@ + rn + "<'a> {\n"@ + pad + "    view: MessageView<'a>,\n"@ + pad + "}\n\n"@ + pad + "impl<'a> "@ + rn + "<'a> {\n"@ + pad + "    pub fn from_words(words: &'a [u32]) -> Option<Self> {\n"@ + pad + "        Some(Self { view: MessageView::new(words)? })\n"@ + pad + "    }\n"@;
            let order = live_order(message.fields@);
            finish_regular(match spec_message_detect_len(head, reg, message, pad) {
                Err(e) => Err(e),
                Ok(t) => {
                    let c0 = t + pad + "    pub fn detect(words: &'a [u32]) -> Option<&'a [u32]> {\n"@ + pad + "        Some(words.get(..Self::detect_len(words)?)?)\n"@ + pad + "    }\n"@ + pad + "    pub fn from_view(view: MessageView<'a>) -> Self { Self { view } }\n"@ + pad + "    pub fn raw(self) -> MessageView<'a> { self.view }\n"@ + pad + "    pub fn raw_words(self) -> &'a [u32] { self.view.raw_words() }\n"@ + pad + "    pub fn has_field(self, id: usize) -> bool { self.view.has_field(id) }\n\n"@;
                    let c1 = spec_consts(c0, message.fields@, order, order.len() as int, pad) + "\n"@;
                    spec_getters(c1, reg, message.fields@, order, order.len() as int, pad)
                },
            }, rn, full, pad)
        },
    }
}

/// Writes the reader of a message registered as `full`.
pub fn generate_regular_message(out: &mut String, reg: &Registry, message: &DescriptorProto, full: &str, pad: &str) -> (r: Result<(), String>)
    requires
        reg.wf(),
        numbers_ok(message.fields@),
    ensures
        emitted(r, final(out)@) == spec_regular(old(out)@, reg.model(), *message, full@, pad@),
{
    proof {
        reveal(spec_regular);
    }
    let rn: String = match find_rust_type(reg, full) {
        Some(x) => x,
        None => {
            return Err(String::from_str("missing rust name for ").concat(full));
        },
    };
    out.append(pad);
    out.append("#[derive(Clone, Copy, Debug)]\n");
    out.append(pad);
    out.append("pub struct ");
    out.append(rn.as_str());
    out.append("<'a> {\n");
    out.append(pad);
    out.append("    view: MessageView<'a>,\n");
    out.append(pad);
    out.append("}\n\n");
    out.append(pad);
    out.append("impl<'a> ");
    out.append(rn.as_str());
    out.append("<'a> {\n");
    out.append(pad);
    out.append("    pub fn from_words(words: &'a [u32]) -> Option<Self> {\n");
    out.append(pad);
    out.append("        Some(Self { view: MessageView::new(words)? })\n");
    out.append(pad);
    out.append("    }\n");
    match write_message_detect_len(out, reg, message, pad) {
        Ok(()) => {},
        Err(e) => {
            return Err(e);
        },
    }
    out.append(pad);
    out.append("    pub fn detect(words: &'a [u32]) -> Option<&'a [u32]> {\n");
    out.append(pad);
    out.append("        Some(words.get(..Self::detect_len(words)?)?)\n");
    out.append(pad);
    out.append("    }\n");
    out.append(pad);
    out.append("    pub fn from_view(view: MessageView<'a>) -> Self { Self { view } }\n");
    out.append(pad);
    out.append("    pub fn raw(self) -> MessageView<'a> { self.view }\n");
    out.append(pad);
    out.append("    pub fn raw_words(self) -> &'a [u32] { self.view.raw_words() }\n");
    out.append(pad);
    out.append("    pub fn has_field(self, id: usize) -> bool { self.view.has_field(id) }\n\n");
    let ghost c0 = out@;
    let order: Vec<usize> = live_fields_by_number(&message.fields);
    let n: usize = order.len();
    let mut k: usize = 0;
    while k < n
        invariant
            k <= n,
            n == order@.len(),
            forall|i: int| 0 <= i < order@.len() ==> order@[i] < message.fields@.len(),
            out@ == spec_consts(c0, message.fields@, order@, k as int, pad@),
            numbers_ok(message.fields@),
        decreases n - k,
    {
        let field: &FieldDescriptorProto = &message.fields[order[k]];
        assert(field.number > i32::MIN);
        out.append(pad);
        out.append("    pub const ");
        append_upper(out, field.name.as_str());
        out.append("_FIELD_ID: usize = ");
        append_signed(out, (field.number - 1) as i64);
        out.append(";\n");
        k += 1;
    }
    out.append("\n");
    let ghost c1 = out@;
    assert(spec_regular(old(out)@, reg.model(), *message, full@, pad@) == finish_regular(spec_getters(c1, reg.model(), message.fields@, order@, n as int, pad@), rn@, full@, pad@));
    let mut k: usize = 0;
    while k < n
        invariant
            k <= n,
            n == order@.len(),
            forall|i: int| 0 <= i < order@.len() ==> order@[i] < message.fields@.len(),
            reg.wf(),
            numbers_ok(message.fields@),
            spec_getters(c1, reg.model(), message.fields@, order@, k as int, pad@) == Ok::<Seq<char>, Seq<char>>(out@),
            spec_regular(old(out)@, reg.model(), *message, full@, pad@) == finish_regular(spec_getters(c1, reg.model(), message.fields@, order@, n as int, pad@), rn@, full@, pad@),
        decreases n - k,
    {
        let field: &FieldDescriptorProto = &message.fields[order[k]];
        assert(field.number > i32::MIN);
        match generate_getter(out, reg, field, pad) {
            Ok(()) => {},
            Err(e) => {
                proof {
                    lemma_getters_err(c1, reg.model(), message.fields@, order@, (k + 1) as int, n as int, pad@);
                }
                return Err(e);
            },
        }
        k += 1;
    }
    out.append(pad);
    out.append("}\n\n");
    out.append(pad);
    out.append("impl<'a> FieldDecode<'a> for ");
    out.append(rn.as_str());
    out.append("<'a> {\n");
    out.append(pad);
    out.append("    fn decode(field: FieldView<'a>) -> Option<Self> {\n");
    out.append(pad);
    out.append("        Some(Self::from_view(field.message()?))\n");
    out.append(pad);
    out.append("    }\n");
    out.append(pad);
    out.append("}\n\n");
    out.append(pad);
    out.append("impl<'a> GeneratedMessage<'a> for ");
    out.append(rn.as_str());
    out.append("<'a> {\n");
    out.append(pad);
    out.append("    fn from_message_view(view: MessageView<'a>) -> Self {\n");
    out.append(pad);
    out.append("        Self::from_view(view)\n");
    out.append(pad);
    out.append("    }\n");
    out.append(pad);
    out.append("}\n\n");
    out.append(pad);
    out.append("impl GeneratedDescriptor for ");
    out.append(rn.as_str());
    out.append("<'_> {\n");
    out.append(pad);
    out.append("    const FULL_NAME: &'static str = \"");
    out.append(full);
    out.append("\";\n");
    out.append(pad);
    out.append("}\n\n");
    Ok(())
}

/// The largest number of the live fields, or zero when there are none.
pub open spec fn spec_max_number(fields: Seq<FieldDescriptorProto>, order: Seq<usize>) -> i32 {
    if order.len() == 0 {
        0
    } else {
        fields[order[order.len() - 1] as int].number
    }
}

/// How many 64-bit words mark the accessed fields of a message whose
/// largest field number is `mx`, rounded toward zero as Rust divides.
pub open spec fn spec_accessed_words(mx: i32) -> int {
    let x = mx + 63;
    if x >= 0 {
        x / 64
    } else {
        -((-x) / 64)
    }
}

/// The struct field of one field of a mutable message.
pub open spec fn spec_struct_field(acc: Seq<char>, reg: RegistryModel, field: FieldDescriptorProto, pad: Seq<char>) -> Result<Seq<char>, Seq<char>> {
    match spec_mutable_field_type(reg, label_of(field.label), type_of(field.type_code), field.type_ref@) {
        Err(e) => Err(e),
        Ok(ft) => Ok(acc + pad + "    _"@ + field.name@ + ": "@ + ft + ",\n"@),
    }
}

/// The default-value checks of the first `k` fields, joined by `&&`.
pub open spec fn spec_checks(fields: Seq<FieldDescriptorProto>, order: Seq<usize>, k: int) -> Seq<char>
    decreases k,
{
    if k <= 1 {
        "MutableField::is_default_value(&self._"@ + fields[order[0] as int].name@ + ")"@
    } else {
        spec_checks(fields, order, k - 1) + " && "@ + "MutableField::is_default_value(&self._"@ + fields[order[k - 1] as int].name@ + ")"@
    }
}

/// The accessed-field checks of the first `k` fields, joined by `||`.
pub open spec fn spec_dirty(fields: Seq<FieldDescriptorProto>, order: Seq<usize>, k: int) -> Seq<char>
    decreases k,
{
    if k <= 1 {
        "self.__view__.was_accessed("@ + spec_signed((fields[order[0] as int].number - 1) as int) + "usize)"@
    } else {
        spec_dirty(fields, order, k - 1) + " || "@ + "self.__view__.was_accessed("@ + spec_signed((fields[order[k - 1] as int].number - 1) as int) + "usize)"@
    }
}

pub open spec fn spec_struct_fields(acc: Seq<char>, reg: RegistryModel, fields: Seq<FieldDescriptorProto>, order: Seq<usize>, k: int, pad: Seq<char>) -> Result<Seq<char>, Seq<char>>
    decreases k,
{
    if k <= 0 {
        Ok(acc)
    } else {
        match spec_struct_fields(acc, reg, fields, order, k - 1, pad) {
            Err(e) => Err(e),
            Ok(t) => spec_struct_field(t, reg, fields[order[k - 1] as int], pad),
        }
    }
}

proof fn lemma_spec_struct_fields_err(acc: Seq<char>, reg: RegistryModel, fields: Seq<FieldDescriptorProto>, order: Seq<usize>, k: int, m: int, pad: Seq<char>)
    requires
        0 <= k <= m,
        spec_struct_fields(acc, reg, fields, order, k, pad) is Err,
    ensures
        spec_struct_fields(acc, reg, fields, order, m, pad) == spec_struct_fields(acc, reg, fields, order, k, pad),
    decreases m - k,
{
    if m > k {
        lemma_spec_struct_fields_err(acc, reg, fields, order, k, m - 1, pad);
    }
}

pub open spec fn spec_default_fields(acc: Seq<char>, fields: Seq<FieldDescriptorProto>, order: Seq<usize>, k: int, pad: Seq<char>) -> Seq<char>
    decreases k,
{
    if k <= 0 {
        acc
    } else {
        let t = spec_default_fields(acc, fields, order, k - 1, pad);
        let field = fields[order[k - 1] as int];
        t + pad + "            _"@ + field.name@ + ": Default::default(),\n"@
    }
}

pub open spec fn spec_serialize_fields(acc: Seq<char>, fields: Seq<FieldDescriptorProto>, order: Seq<usize>, k: int, pad: Seq<char>) -> Seq<char>
    decreases k,
{
    if k <= 0 {
        acc
    } else {
        let t = spec_serialize_fields(acc, fields, order, k - 1, pad);
        let field = fields[order[order.len() - k] as int];
        t + pad + "        self.__view__.serialize_field("@ + spec_signed((field.number - 1) as int) + "usize, &self._"@ + field.name@ + ", buffer, &mut parts["@ + spec_signed((field.number - 1) as int) + "usize])?;\n"@
    }
}

pub open spec fn spec_mutable_getters(acc: Seq<char>, reg: RegistryModel, fields: Seq<FieldDescriptorProto>, order: Seq<usize>, k: int, pad: Seq<char>) -> Result<Seq<char>, Seq<char>>
    decreases k,
{
    if k <= 0 {
        Ok(acc)
    } else {
        match spec_mutable_getters(acc, reg, fields, order, k - 1, pad) {
            Err(e) => Err(e),
            Ok(t) => spec_mutable_getter(t, reg, fields[order[k - 1] as int], pad),
        }
    }
}

proof fn lemma_spec_mutable_getters_err(acc: Seq<char>, reg: RegistryModel, fields: Seq<FieldDescriptorProto>, order: Seq<usize>, k: int, m: int, pad: Seq<char>)
    requires
        0 <= k <= m,
        spec_mutable_getters(acc, reg, fields, order, k, pad) is Err,
    ensures
        spec_mutable_getters(acc, reg, fields, order, m, pad) == spec_mutable_getters(acc, reg, fields, order, k, pad),
    decreases m - k,
{
    if m > k {
        lemma_spec_mutable_getters_err(acc, reg, fields, order, k, m - 1, pad);
    }
}

/// The end of a mutable message: its field trait, with the accessed-field
/// checks, and its array element trait.
pub open spec fn mutable_finish(r: Result<Seq<char>, Seq<char>>, fields: Seq<FieldDescriptorProto>, order: Seq<usize>, rn: Seq<char>, full: Seq<char>, pad: Seq<char>) -> Result<Seq<char>, Seq<char>> {
    match r {
        Err(e) => Err(e),
        Ok(t) => {
            let u = t + pad + "}\n\n"@ + pad + "impl<'a> MutableField<'a> for "@ + rn + "Mutable<'a> {\n"@ + pad + "    fn decode(field: FieldView<'a>) -> Option<Self> {\n"@ + pad + "        Self::from_words(field.object_words()?)\n"@ + pad + "    }\n"@ + pad + "    fn detect<'b>(field: FieldView<'b>) -> Option<&'b [u32]> {\n"@ + pad + "        "@ + rn + "::detect(field.object_words()?)\n"@ + pad + "    }\n"@ + pad + "    fn encode_nested(&self, buffer: &mut Buffer) -> Result<Unit, MutableError> {\n"@ + pad + "        self.encode_to_unit(buffer)\n"@ + pad + "    }\n"@ + pad + "    fn encode_present(&self, buffer: &mut Buffer) -> Result<Unit, MutableError> {\n"@ + pad + "        let mut unit = self.encode_to_unit(buffer)?;\n"@ + pad + "        if unit.size() > 1 { protocache_core::fold_field(buffer, &mut unit); }\n"@ + pad + "        Ok(unit)\n"@ + pad + "    }\n"@;
            if order.len() == 0 {
                Ok(u + pad + "    fn is_dirty(&self) -> bool { false }\n"@ + pad + "    fn has_nested_dirty(&self) -> bool { false }\n"@ + pad + "    fn is_default_value(&self) -> bool { self.is_effectively_empty() }\n"@ + pad + "}\n\n"@ + pad + "impl<'a> MutableArrayElement<'a> for "@ + rn + "Mutable<'a> {\n"@ + pad + "    fn decode_array(words: &'a [u32]) -> Option<Vec<Self>> {\n"@ + pad + "        let array = ArrayView::new(words)?;\n"@ + pad + "        let mut values = Vec::with_capacity(array.len());\n"@ + pad + "        for item in array.iter() { values.push(Self::from_words(item.object_words()?)?); }\n"@ + pad + "        Some(values)\n"@ + pad + "    }\n"@ + pad + "    fn encode_array(values: &[Self], buffer: &mut Buffer) -> Result<Unit, MutableError> {\n"@ + pad + "        if values.is_empty() { return Ok(Unit::inline(&[1])); }\n"@ + pad + "        let last = buffer.len();\n"@ + pad + "        let mut units = vec![Unit::empty(); values.len()];\n"@ + pad + "        for i in (0..values.len()).rev() { units[i] = values[i].encode_nested(buffer)?; }\n"@ + pad + "        protocache_core::serialize_array_at(&units, buffer, last).ok_or_else(|| MutableError::SerializeFailed {\n"@ + pad + "            descriptor: \""@ + full + "\".to_owned(),\n"@ + pad + "            field: \"<array>\".to_owned(),\n"@ + pad + "        })\n"@ + pad + "    }\n"@ + pad + "}\n\n"@)
            } else {
                Ok(u + pad + "    fn is_dirty(&self) -> bool { "@ + spec_dirty(fields, order, order.len() as int) + " }\n"@ + pad + "    fn has_nested_dirty(&self) -> bool { self.is_dirty() }\n"@ + pad + "    fn is_default_value(&self) -> bool { self.is_effectively_empty() }\n"@ + pad + "}\n\n"@ + pad + "impl<'a> MutableArrayElement<'a> for "@ + rn + "Mutable<'a> {\n"@ + pad + "    fn decode_array(words: &'a [u32]) -> Option<Vec<Self>> {\n"@ + pad + "        let array = ArrayView::new(words)?;\n"@ + pad + "        let mut values = Vec::with_capacity(array.len());\n"@ + pad + "        for item in array.iter() { values.push(Self::from_words(item.object_words()?)?); }\n"@ + pad + "        Some(values)\n"@ + pad + "    }\n"@ + pad + "    fn encode_array(values: &[Self], buffer: &mut Buffer) -> Result<Unit, MutableError> {\n"@ + pad + "        if values.is_empty() { return Ok(Unit::inline(&[1])); }\n"@ + pad + "        let last = buffer.len();\n"@ + pad + "        let mut units = vec![Unit::empty(); values.len()];\n"@ + pad + "        for i in (0..values.len()).rev() { units[i] = values[i].encode_nested(buffer)?; }\n"@ + pad + "        protocache_core::serialize_array_at(&units, buffer, last).ok_or_else(|| MutableError::SerializeFailed {\n"@ + pad + "            descriptor: \""@ + full + "\".to_owned(),\n"@ + pad + "            field: \"<array>\".to_owned(),\n"@ + pad + "        })\n"@ + pad + "    }\n"@ + pad + "}\n\n"@)
            }
        },
    }
}

/// A mutable message after its struct fields: its default, its
/// constructors, its emptiness check, its encoder and its getters.
pub open spec fn mutable_rest(r: Result<Seq<char>, Seq<char>>, reg: RegistryModel, message: DescriptorProto, full: Seq<char>, rn: Seq<char>, pad: Seq<char>) -> Result<Seq<char>, Seq<char>> {
    match r {
        Err(e) => Err(e),
        Ok(t) => {
            let order = live_order(message.fields@);
            let n = order.len() as int;
            let mx = spec_max_number(message.fields@, order);
            let d = spec_default_fields(t + pad + "}\n\n"@ + pad + "impl<'a> Default for "@ + rn + "Mutable<'a> {\n"@ + pad + "    fn default() -> Self {\n"@ + pad + "        Self {\n"@ + pad + "            __view__: MutableMessage::new(),\n"@, message.fields@, order, n, pad) + pad + "        }\n"@ + pad + "    }\n"@ + pad + "}\n\n"@ + pad + "impl<'a> "@ + rn + "Mutable<'a> {\n"@ + pad + "    pub fn new() -> Self { Self::default() }\n"@ + pad + "    pub fn from_words(words: &'a [u32]) -> Option<Self> {\n"@ + pad + "        Some(Self { __view__: MutableMessage::from_words(words)?, ..Self::default() })\n"@ + pad + "    }\n"@ + pad + "    pub fn has_field(&self, id: usize) -> bool { self.__view__.has_field(id) }\n"@ + pad + "    pub fn is_effectively_empty(&self) -> bool {\n"@;
            let c = if n == 0 {
                d + pad + "        true\n"@
            } else {
                d + pad + "        "@ + spec_checks(message.fields@, order, n) + "\n"@
            };
            let s = spec_serialize_fields(c + pad + "    }\n"@ + pad + "    pub fn encode_to_unit(&self, buffer: &mut Buffer) -> Result<Unit, MutableError> {\n"@ + pad + "        if let Some(words) = self.__view__.clean_words() {\n"@ + pad + "            return Ok(protocache_core::mutable::copy_words(words, buffer, false));\n"@ + pad + "        }\n"@ + pad + "        let last = buffer.len();\n"@ + pad + "        let mut parts = [Unit::empty(); "@ + spec_signed((mx) as int) + "];\n"@, message.fields@, order, n, pad) + pad + "        serialize_message_at(&mut parts, buffer, last).ok_or_else(|| MutableError::SerializeFailed {\n"@ + pad + "            descriptor: \""@ + full + "\".to_owned(),\n"@ + pad + "            field: \"<message>\".to_owned(),\n"@ + pad + "        })\n"@ + pad + "    }\n"@ + pad + "    pub fn serialize_words(&self) -> Result<Vec<u32>, MutableError> {\n"@ + pad + "        let mut buffer = Buffer::new();\n"@ + pad + "        let _ = self.serialize_into_buffer(&mut buffer)?;\n"@ + pad + "        Ok(buffer.view().to_vec())\n"@ + pad + "    }\n"@ + pad + "    pub fn serialize_into_buffer<'b>(&self, buffer: &'b mut Buffer) -> Result<&'b [u32], MutableError> {\n"@ + pad + "        buffer.clear();\n"@ + pad + "        let _ = self.encode_to_unit(buffer)?;\n"@ + pad + "        Ok(buffer.view())\n"@ + pad + "    }\n"@;
            mutable_finish(spec_mutable_getters(s, reg, message.fields@, order, n, pad), message.fields@, order, rn, full, pad)
        },
    }
}

/// The mutable message of a message registered as `full`.
#[verifier::opaque]
pub open spec fn spec_mutable(acc: Seq<char>, reg: RegistryModel, message: DescriptorProto, full: Seq<char>, pad: Seq<char>) -> Result<Seq<char>, Seq<char>> {
    match reg.rust_type_of(full) {
        None => Err("missing rust name for "@ + full),
        Some(rn) => {
            let order = live_order(message.fields@);
            let mx = spec_max_number(message.fields@, order);
            let aw = spec_accessed_words(mx);
            let s0 = acc + pad + "#[derive(Clone, Debug)]\n"@ + pad + "pub struct "@ + rn + "Mutable<'a> {\n"@ + pad + "    __view__: MutableMessage<'a, "@ + spec_signed((mx) as int) + ", "@ + spec_signed((aw) as int) + ">,\n"@;
            mutable_rest(spec_struct_fields(s0, reg, message.fields@, order, order.len() as int, pad), reg, message, full, rn, pad)
        },
    }
}

/// Writes the struct fields of a mutable message.
fn write_struct_fields(out: &mut String, reg: &Registry, fields: &Vec<FieldDescriptorProto>, order: &Vec<usize>, pad: &str) -> (r: Result<(), String>)
    requires
        reg.wf(),
        forall|i: int| 0 <= i < order@.len() ==> order@[i] < fields@.len(),
    ensures
        emitted(r, final(out)@) == spec_struct_fields(old(out)@, reg.model(), fields@, order@, order@.len() as int, pad@),
{
    let n: usize = order.len();
    let mut k: usize = 0;
    while k < n
        invariant
            k <= n,
            n == order@.len(),
            forall|i: int| 0 <= i < order@.len() ==> order@[i] < fields@.len(),
            reg.wf(),
            spec_struct_fields(old(out)@, reg.model(), fields@, order@, k as int, pad@) == Ok::<Seq<char>, Seq<char>>(out@),
        decreases n - k,
    {
        let field: &FieldDescriptorProto = &fields[order[k]];
        let ft = match mutable_field_type(reg, field_label(field.label), field_type(field.type_code), field.type_ref.as_str()) {
            Ok(x) => x,
            Err(e) => {
                proof {
                    assert(spec_struct_fields(old(out)@, reg.model(), fields@, order@, (k + 1) as int, pad@) == Err::<Seq<char>, Seq<char>>(e@));
                    lemma_spec_struct_fields_err(old(out)@, reg.model(), fields@, order@, (k + 1) as int, n as int, pad@);
                }
                return Err(e);
            },
        };
        out.append(pad);
        out.append("    _");
        out.append(field.name.as_str());
        out.append(": ");
        out.append(ft.as_str());
        out.append(",\n");
        k += 1;
    }
    Ok(())
}

/// Writes the default values of the fields of a mutable message.
fn write_default_fields(out: &mut String, fields: &Vec<FieldDescriptorProto>, order: &Vec<usize>, pad: &str)
    requires
        forall|i: int| 0 <= i < order@.len() ==> order@[i] < fields@.len(),
    ensures
        final(out)@ == spec_default_fields(old(out)@, fields@, order@, order@.len() as int, pad@),
{
    let ghost d0 = out@;
    let n: usize = order.len();
    let mut k: usize = 0;
    while k < n
        invariant
            k <= n,
            n == order@.len(),
            forall|i: int| 0 <= i < order@.len() ==> order@[i] < fields@.len(),
            out@ == spec_default_fields(d0, fields@, order@, k as int, pad@),
        decreases n - k,
    {
        let field: &FieldDescriptorProto = &fields[order[k]];
        out.append(pad);
        out.append("            _");
        out.append(field.name.as_str());
        out.append(": Default::default(),\n");
        k += 1;
    }
}

/// The default-value checks of the fields, joined by `&&`.
fn make_checks(fields: &Vec<FieldDescriptorProto>, order: &Vec<usize>) -> (r: String)
    requires
        forall|i: int| 0 <= i < order@.len() ==> order@[i] < fields@.len(),
        order@.len() >= 1,
    ensures
        r@ == spec_checks(fields@, order@, order@.len() as int),
{
    let n: usize = order.len();
    let first: &FieldDescriptorProto = &fields[order[0]];
    let mut checks = String::from_str("MutableField::is_default_value(&self._");
    checks.append(first.name.as_str());
    checks.append(")");
    let mut k: usize = 1;
    while k < n
        invariant
            1 <= k <= n,
            n == order@.len(),
            forall|i: int| 0 <= i < order@.len() ==> order@[i] < fields@.len(),
            checks@ == spec_checks(fields@, order@, k as int),
        decreases n - k,
    {
        let field: &FieldDescriptorProto = &fields[order[k]];
        checks.append(" && ");
        checks.append("MutableField::is_default_value(&self._");
        checks.append(field.name.as_str());
        checks.append(")");
        k += 1;
    }
    checks
}

/// Writes the encoding of the fields of a mutable message, the last first.
fn write_serialize_fields(out: &mut String, fields: &Vec<FieldDescriptorProto>, order: &Vec<usize>, pad: &str)
    requires
        forall|i: int| 0 <= i < order@.len() ==> order@[i] < fields@.len(),
        numbers_ok(fields@),
    ensures
        final(out)@ == spec_serialize_fields(old(out)@, fields@, order@, order@.len() as int, pad@),
{
    let ghost c1 = out@;
    let n: usize = order.len();
    let mut k: usize = 0;
    while k < n
        invariant
            k <= n,
            n == order@.len(),
            forall|i: int| 0 <= i < order@.len() ==> order@[i] < fields@.len(),
            numbers_ok(fields@),
            out@ == spec_serialize_fields(c1, fields@, order@, k as int, pad@),
        decreases n - k,
    {
        let field: &FieldDescriptorProto = &fields[order[n - 1 - k]];
        assert(field.number > i32::MIN);
        out.append(pad);
        out.append("        self.__view__.serialize_field(");
        append_signed(out, (field.number - 1) as i64);
        out.append("usize, &self._");
        out.append(field.name.as_str());
        out.append(", buffer, &mut parts[");
        append_signed(out, (field.number - 1) as i64);
        out.append("usize])?;\n");
        k += 1;
    }
}

/// Writes the getters of a mutable message.
fn write_mutable_getters(out: &mut String, reg: &Registry, fields: &Vec<FieldDescriptorProto>, order: &Vec<usize>, pad: &str) -> (r: Result<(), String>)
    requires
        reg.wf(),
        forall|i: int| 0 <= i < order@.len() ==> order@[i] < fields@.len(),
        numbers_ok(fields@),
    ensures
        emitted(r, final(out)@) == spec_mutable_getters(old(out)@, reg.model(), fields@, order@, order@.len() as int, pad@),
{
    let n: usize = order.len();
    let mut k: usize = 0;
    while k < n
        invariant
            k <= n,
            n == order@.len(),
            forall|i: int| 0 <= i < order@.len() ==> order@[i] < fields@.len(),
            reg.wf(),
            numbers_ok(fields@),
            spec_mutable_getters(old(out)@, reg.model(), fields@, order@, k as int, pad@) == Ok::<Seq<char>, Seq<char>>(out@),
        decreases n - k,
    {
        let field: &FieldDescriptorProto = &fields[order[k]];
        assert(field.number > i32::MIN);
        let ghost before = out@;
        match generate_mutable_getter(out, reg, field, pad) {
            Ok(()) => {},
            Err(e) => {
                proof {
                    assert(spec_mutable_getter(before, reg.model(), *field, pad@) == Err::<Seq<char>, Seq<char>>(e@));
                    assert(spec_mutable_getters(old(out)@, reg.model(), fields@, order@, (k + 1) as int, pad@) == Err::<Seq<char>, Seq<char>>(e@));
                    lemma_spec_mutable_getters_err(old(out)@, reg.model(), fields@, order@, (k + 1) as int, n as int, pad@);
                }
                return Err(e);
            },
        }
        k += 1;
    }
    Ok(())
}

/// The accessed-field checks of the fields, joined by `||`.
fn make_dirty(fields: &Vec<FieldDescriptorProto>, order: &Vec<usize>) -> (r: String)
    requires
        forall|i: int| 0 <= i < order@.len() ==> order@[i] < fields@.len(),
        order@.len() >= 1,
        numbers_ok(fields@),
    ensures
        r@ == spec_dirty(fields@, order@, order@.len() as int),
{
    let n: usize = order.len();
    let first: &FieldDescriptorProto = &fields[order[0]];
    assert(first.number > i32::MIN);
    let mut dirty = String::from_str("self.__view__.was_accessed(");
    append_signed(&mut dirty, (first.number - 1) as i64);
    dirty.append("usize)");
    let mut k: usize = 1;
    while k < n
        invariant
            1 <= k <= n,
            n == order@.len(),
            forall|i: int| 0 <= i < order@.len() ==> order@[i] < fields@.len(),
            numbers_ok(fields@),
            dirty@ == spec_dirty(fields@, order@, k as int),
        decreases n - k,
    {
        let field: &FieldDescriptorProto = &fields[order[k]];
        assert(field.number > i32::MIN);
        dirty.append(" || ");
        dirty.append("self.__view__.was_accessed(");
        append_signed(&mut dirty, (field.number - 1) as i64);
        dirty.append("usize)");
        k += 1;
    }
    dirty
}

/// Writes the mutable message of a message registered as `full`.
#[verifier::rlimit(80)]
#[verifier::spinoff_prover]
pub fn generate_mutable_message(out: &mut String, reg: &Registry, message: &DescriptorProto, full: &str, pad: &str) -> (r: Result<(), String>)
    requires
        reg.wf(),
        numbers_ok(message.fields@),
        spec_max_number(message.fields@, live_order(message.fields@)) <= i32::MAX - 63,
    ensures
        emitted(r, final(out)@) == spec_mutable(old(out)@, reg.model(), *message, full@, pad@),
{
    proof {
        reveal(spec_mutable);
    }
    let rn: String = match find_rust_type(reg, full) {
        Some(x) => x,
        None => {
            return Err(String::from_str("missing rust name for ").concat(full));
        },
    };
    let order: Vec<usize> = live_fields_by_number(&message.fields);
    let n: usize = order.len();
    let mx: i32 = if n == 0 {
        0
    } else {
        message.fields[order[n - 1]].number
    };
    assert(mx == spec_max_number(message.fields@, order@));
    let x: i32 = mx + 63;
    let aw: i32 = if x >= 0 {
        x / 64
    } else {
        -((-x) / 64)
    };
    assert(aw == spec_accessed_words(mx));
    out.append(pad);
    out.append("#[derive(Clone, Debug)]\n");
    out.append(pad);
    out.append("pub struct ");
    out.append(rn.as_str());
    out.append("Mutable<'a> {\n");
    out.append(pad);
    out.append("    __view__: MutableMessage<'a, ");
    append_signed(out, mx as i64);
    out.append(", ");
    append_signed(out, aw as i64);
    out.append(">,\n");
    match write_struct_fields(out, reg, &message.fields, &order, pad) {
        Ok(()) => {},
        Err(e) => {
            return Err(e);
        },
    }
    out.append(pad);
    out.append("}\n\n");
    out.append(pad);
    out.append("impl<'a> Default for ");
    out.append(rn.as_str());
    out.append("Mutable<'a> {\n");
    out.append(pad);
    out.append("    fn default() -> Self {\n");
    out.append(pad);
    out.append("        Self {\n");
    out.append(pad);
    out.append("            __view__: MutableMessage::new(),\n");
    write_default_fields(out, &message.fields, &order, pad);
    out.append(pad);
    out.append("        }\n");
    out.append(pad);
    out.append("    }\n");
    out.append(pad);
    out.append("}\n\n");
    out.append(pad);
    out.append("impl<'a> ");
    out.append(rn.as_str());
    out.append("Mutable<'a> {\n");
    out.append(pad);
    out.append("    pub fn new() -> Self { Self::default() }\n");
    out.append(pad);
    out.append("    pub fn from_words(words: &'a [u32]) -> Option<Self> {\n");
    out.append(pad);
    out.append("        Some(Self { __view__: MutableMessage::from_words(words)?, ..Self::default() })\n");
    out.append(pad);
    out.append("    }\n");
    out.append(pad);
    out.append("    pub fn has_field(&self, id: usize) -> bool { self.__view__.has_field(id) }\n");
    out.append(pad);
    out.append("    pub fn is_effectively_empty(&self) -> bool {\n");
    if n == 0 {
        out.append(pad);
        out.append("        true\n");
    } else {
        let checks: String = make_checks(&message.fields, &order);
        out.append(pad);
        out.append("        ");
        out.append(checks.as_str());
        out.append("\n");
    }
    out.append(pad);
    out.append("    }\n");
    out.append(pad);
    out.append("    pub fn encode_to_unit(&self, buffer: &mut Buffer) -> Result<Unit, MutableError> {\n");
    out.append(pad);
    out.append("        if let Some(words) = self.__view__.clean_words() {\n");
    out.append(pad);
    out.append("            return Ok(protocache_core::mutable::copy_words(words, buffer, false));\n");
    out.append(pad);
    out.append("        }\n");
    out.append(pad);
    out.append("        let last = buffer.len();\n");
    out.append(pad);
    out.append("        let mut parts = [Unit::empty(); ");
    append_signed(out, mx as i64);
    out.append("];\n");
    write_serialize_fields(out, &message.fields, &order, pad);
    out.append(pad);
    out.append("        serialize_message_at(&mut parts, buffer, last).ok_or_else(|| MutableError::SerializeFailed {\n");
    out.append(pad);
    out.append("            descriptor: \"");
    out.append(full);
    out.append("\".to_owned(),\n");
    out.append(pad);
    out.append("            field: \"<message>\".to_owned(),\n");
    out.append(pad);
    out.append("        })\n");
    out.append(pad);
    out.append("    }\n");
    out.append(pad);
    out.append("    pub fn serialize_words(&self) -> Result<Vec<u32>, MutableError> {\n");
    out.append(pad);
    out.append("        let mut buffer = Buffer::new();\n");
    out.append(pad);
    out.append("        let _ = self.serialize_into_buffer(&mut buffer)?;\n");
    out.append(pad);
    out.append("        Ok(buffer.view().to_vec())\n");
    out.append(pad);
    out.append("    }\n");
    out.append(pad);
    out.append("    pub fn serialize_into_buffer<'b>(&self, buffer: &'b mut Buffer) -> Result<&'b [u32], MutableError> {\n");
    out.append(pad);
    out.append("        buffer.clear();\n");
    out.append(pad);
    out.append("        let _ = self.encode_to_unit(buffer)?;\n");
    out.append(pad);
    out.append("        Ok(buffer.view())\n");
    out.append(pad);
    out.append("    }\n");
    match write_mutable_getters(out, reg, &message.fields, &order, pad) {
        Ok(()) => {},
        Err(e) => {
            return Err(e);
        },
    }
    out.append(pad);
    out.append("}\n\n");
    out.append(pad);
    out.append("impl<'a> MutableField<'a> for ");
    out.append(rn.as_str());
    out.append("Mutable<'a> {\n");
    out.append(pad);
    out.append("    fn decode(field: FieldView<'a>) -> Option<Self> {\n");
    out.append(pad);
    out.append("        Self::from_words(field.object_words()?)\n");
    out.append(pad);
    out.append("    }\n");
    out.append(pad);
    out.append("    fn detect<'b>(field: FieldView<'b>) -> Option<&'b [u32]> {\n");
    out.append(pad);
    out.append("        ");
    out.append(rn.as_str());
    out.append("::detect(field.object_words()?)\n");
    out.append(pad);
    out.append("    }\n");
    out.append(pad);
    out.append("    fn encode_nested(&self, buffer: &mut Buffer) -> Result<Unit, MutableError> {\n");
    out.append(pad);
    out.append("        self.encode_to_unit(buffer)\n");
    out.append(pad);
    out.append("    }\n");
    out.append(pad);
    out.append("    fn encode_present(&self, buffer: &mut Buffer) -> Result<Unit, MutableError> {\n");
    out.append(pad);
    out.append("        let mut unit = self.encode_to_unit(buffer)?;\n");
    out.append(pad);
    out.append("        if unit.size() > 1 { protocache_core::fold_field(buffer, &mut unit); }\n");
    out.append(pad);
    out.append("        Ok(unit)\n");
    out.append(pad);
    out.append("    }\n");
    if n == 0 {
        out.append(pad);
        out.append("    fn is_dirty(&self) -> bool { false }\n");
        out.append(pad);
        out.append("    fn has_nested_dirty(&self) -> bool { false }\n");
    } else {
        let dirty: String = make_dirty(&message.fields, &order);
        out.append(pad);
        out.append("    fn is_dirty(&self) -> bool { ");
        out.append(dirty.as_str());
        out.append(" }\n");
        out.append(pad);
        out.append("    fn has_nested_dirty(&self) -> bool { self.is_dirty() }\n");
    }
    out.append(pad);
    out.append("    fn is_default_value(&self) -> bool { self.is_effectively_empty() }\n");
    out.append(pad);
    out.append("}\n\n");
    out.append(pad);
    out.append("impl<'a> MutableArrayElement<'a> for ");
    out.append(rn.as_str());
    out.append("Mutable<'a> {\n");
    out.append(pad);
    out.append("    fn decode_array(words: &'a [u32]) -> Option<Vec<Self>> {\n");
    out.append(pad);
    out.append("        let array = ArrayView::new(words)?;\n");
    out.append(pad);
    out.append("        let mut values = Vec::with_capacity(array.len());\n");
    out.append(pad);
    out.append("        for item in array.iter() { values.push(Self::from_words(item.object_words()?)?); }\n");
    out.append(pad);
    out.append("        Some(values)\n");
    out.append(pad);
    out.append("    }\n");
    out.append(pad);
    out.append("    fn encode_array(values: &[Self], buffer: &mut Buffer) -> Result<Unit, MutableError> {\n");
    out.append(pad);
    out.append("        if values.is_empty() { return Ok(Unit::inline(&[1])); }\n");
    out.append(pad);
    out.append("        let last = buffer.len();\n");
    out.append(pad);
    out.append("        let mut units = vec![Unit::empty(); values.len()];\n");
    out.append(pad);
    out.append("        for i in (0..values.len()).rev() { units[i] = values[i].encode_nested(buffer)?; }\n");
    out.append(pad);
    out.append("        protocache_core::serialize_array_at(&units, buffer, last).ok_or_else(|| MutableError::SerializeFailed {\n");
    out.append(pad);
    out.append("            descriptor: \"");
    out.append(full);
    out.append("\".to_owned(),\n");
    out.append(pad);
    out.append("            field: \"<array>\".to_owned(),\n");
    out.append(pad);
    out.append("        })\n");
    out.append(pad);
    out.append("    }\n");
    out.append(pad);
    out.append("}\n\n");
    Ok(())
}

/// Whether the messages of a tree can have their code written: every
/// field number is above the least `i32`, and the largest live field
/// number of a message that is no alias leaves room for the words that
/// mark accessed fields.
pub open spec fn gen_ok(message: DescriptorProto) -> bool
    decreases message,
{
    &&& numbers_ok(message.fields@)
    &&& !is_alias_msg(message) ==> spec_max_number(message.fields@, live_order(message.fields@)) <= i32::MAX - 63
    &&& forall|i: int| 0 <= i < message.nested_types@.len() ==> gen_ok(#[trigger] message.nested_types@[i])
}

/// The Rust enums of the first `i` enums.
pub open spec fn spec_gen_enums(acc: Seq<char>, enums: Seq<EnumDescriptorProto>, i: int, pad: Seq<char>) -> Seq<char>
    decreases i,
{
    if i <= 0 {
        acc
    } else {
        spec_enum(spec_gen_enums(acc, enums, i - 1, pad), enums[i - 1], pad)
    }
}

/// The code of a message and of what it nests: its enums, its nested
/// messages other than map entries, then its reader, and its mutable
/// message unless it is an alias.
pub open spec fn spec_gen_message(acc: Seq<char>, reg: RegistryModel, message: DescriptorProto, package: Seq<char>, parent: Option<Seq<char>>, pad: Seq<char>) -> Result<Seq<char>, Seq<char>>
    decreases message, 1int, 0int,
{
    let full = full_of(parent, package, message.name@);
    let a1 = spec_gen_enums(acc, message.enum_types@, message.enum_types@.len() as int, pad);
    finish_message(spec_gen_nested(a1, reg, message, package, full, message.nested_types@.len() as int, pad), reg, message, full, pad)
}

/// The reader of a message, and its mutable message unless it is an
/// alias, after its nested code.
pub open spec fn finish_message(r: Result<Seq<char>, Seq<char>>, reg: RegistryModel, message: DescriptorProto, full: Seq<char>, pad: Seq<char>) -> Result<Seq<char>, Seq<char>> {
    match r {
        Err(e) => Err(e),
        Ok(a2) => if is_alias_msg(message) {
            spec_alias(a2, reg, message, full, pad)
        } else {
            match spec_regular(a2, reg, message, full, pad) {
                Err(e) => Err(e),
                Ok(a3) => spec_mutable(a3, reg, message, full, pad),
            }
        },
    }
}

/// The code of the first `i` messages nested in a message named `full`.
pub open spec fn spec_gen_nested(acc: Seq<char>, reg: RegistryModel, message: DescriptorProto, package: Seq<char>, full: Seq<char>, i: int, pad: Seq<char>) -> Result<Seq<char>, Seq<char>>
    decreases message, 0int, i,
{
    if i <= 0 || i > message.nested_types@.len() {
        Ok(acc)
    } else {
        match spec_gen_nested(acc, reg, message, package, full, i - 1, pad) {
            Err(e) => Err(e),
            Ok(t) => {
                let nested = message.nested_types@[i - 1];
                if nested.map_entry {
                    Ok(t)
                } else {
                    spec_gen_message(t, reg, nested, package, Some(full), pad)
                }
            },
        }
    }
}

proof fn lemma_gen_nested_err(acc: Seq<char>, reg: RegistryModel, message: DescriptorProto, package: Seq<char>, full: Seq<char>, k: int, m: int, pad: Seq<char>)
    requires
        0 <= k <= m <= message.nested_types@.len(),
        spec_gen_nested(acc, reg, message, package, full, k, pad) is Err,
    ensures
        spec_gen_nested(acc, reg, message, package, full, m, pad) == spec_gen_nested(acc, reg, message, package, full, k, pad),
    decreases m - k,
{
    if m > k {
        lemma_gen_nested_err(acc, reg, message, package, full, k, m - 1, pad);
    }
}

/// Writes the code of a message and of what it nests.
pub fn generate_message(out: &mut String, reg: &Registry, message: &DescriptorProto, package: &str, parent: Option<&str>, pad: &str) -> (r: Result<(), String>)
    requires
        reg.wf(),
        gen_ok(*message),
    ensures
        emitted(r, final(out)@) == spec_gen_message(old(out)@, reg.model(), *message, package@, opt_view(parent), pad@),
    decreases message,
{
    let full: String = match parent {
        Some(p) => String::from_str(p).concat(".").concat(message.name.as_str()),
        None => package_prefix(package).concat(".").concat(message.name.as_str()),
    };
    assert(full@ == full_of(opt_view(parent), package@, message.name@));
    let mut i: usize = 0;
    while i < message.enum_types.len()
        invariant
            i <= message.enum_types@.len(),
            out@ == spec_gen_enums(old(out)@, message.enum_types@, i as int, pad@),
        decreases message.enum_types@.len() - i,
    {
        generate_enum(out, &message.enum_types[i], pad);
        i += 1;
    }
    let ghost a1 = out@;
    let n: usize = message.nested_types.len();
    let mut j: usize = 0;
    while j < n
        invariant
            j <= n,
            n == message.nested_types@.len(),
            reg.wf(),
            gen_ok(*message),
            spec_gen_nested(a1, reg.model(), *message, package@, full@, j as int, pad@) == Ok::<Seq<char>, Seq<char>>(out@),
            spec_gen_message(old(out)@, reg.model(), *message, package@, opt_view(parent), pad@) == finish_message(spec_gen_nested(a1, reg.model(), *message, package@, full@, n as int, pad@), reg.model(), *message, full@, pad@),
        decreases n - j,
    {
        let nested: &DescriptorProto = &message.nested_types[j];
        assert(gen_ok(message.nested_types@[j as int]));
        if !nested.map_entry {
            let ghost before = out@;
            match generate_message(out, reg, nested, package, Some(full.as_str()), pad) {
                Ok(()) => {},
                Err(e) => {
                    proof {
                        assert(spec_gen_nested(a1, reg.model(), *message, package@, full@, (j + 1) as int, pad@) == Err::<Seq<char>, Seq<char>>(e@));
                        lemma_gen_nested_err(a1, reg.model(), *message, package@, full@, (j + 1) as int, n as int, pad@);
                    }
                    return Err(e);
                },
            }
        }
        j += 1;
    }
    if is_alias_message(message) {
        generate_alias(out, reg, message, full.as_str(), pad)
    } else {
        match generate_regular_message(out, reg, message, full.as_str(), pad) {
            Ok(()) => {},
            Err(e) => {
                return Err(e);
            },
        }
        generate_mutable_message(out, reg, message, full.as_str(), pad)
    }
}

/// What has been split of a package name after its first `i` characters:
/// the finished parts and the part under way.
pub open spec fn split_state(s: Seq<char>, i: int) -> (Seq<Seq<char>>, Seq<char>)
    decreases i,
{
    if i <= 0 {
        (Seq::empty(), Seq::empty())
    } else {
        let (done, cur) = split_state(s, i - 1);
        if s[i - 1] == '.' {
            (done.push(cur), Seq::empty())
        } else {
            (done, cur.push(s[i - 1]))
        }
    }
}

/// The dot-separated parts of a package name.
pub open spec fn split_dot(s: Seq<char>) -> Seq<Seq<char>> {
    let (done, cur) = split_state(s, s.len() as int);
    done.push(cur)
}

/// The dot-separated parts of a package name.
pub(crate) fn split_dots(s: &str) -> (r: Vec<String>)
    ensures
        r@.len() == split_dot(s@).len(),
        forall|j: int| 0 <= j < r@.len() ==> (#[trigger] r@[j])@ == split_dot(s@)[j],
{
    let n: usize = s.unicode_len();
    let mut done: Vec<String> = Vec::new();
    let mut cur = String::new();
    let mut i: usize = 0;
    while i < n
        invariant
            i <= n,
            n == s@.len(),
            done@.len() == split_state(s@, i as int).0.len(),
            forall|j: int| 0 <= j < done@.len() ==> (#[trigger] done@[j])@ == split_state(s@, i as int).0[j],
            cur@ == split_state(s@, i as int).1,
        decreases n - i,
    {
        let c: char = s.get_char(i);
        if c == '.' {
            let finished = cur;
            done.push(finished);
            cur = String::new();
        } else {
            push_char(&mut cur, c);
        }
        i += 1;
    }
    done.push(cur);
    done
}

/// The module openings of the first `k` parts of a package.
pub open spec fn mods_open(acc: Seq<char>, parts: Seq<Seq<char>>, k: int) -> Seq<char>
    decreases k,
{
    if k <= 0 {
        acc
    } else {
        mods_open(acc, parts, k - 1) + "pub mod "@ + parts[k - 1] + " {\n"@
    }
}

/// The module closings of the last `k` parts of a package, the innermost
/// first.
pub open spec fn mods_close(acc: Seq<char>, parts: Seq<Seq<char>>, k: int) -> Seq<char>
    decreases k,
{
    if k <= 0 {
        acc
    } else {
        mods_close(acc, parts, k - 1) + "} // mod "@ + parts[parts.len() - k] + "\n"@
    }
}

/// The code of the first `i` top-level messages of a file.
pub open spec fn spec_gen_messages(acc: Seq<char>, reg: RegistryModel, messages: Seq<DescriptorProto>, package: Seq<char>, i: int, pad: Seq<char>) -> Result<Seq<char>, Seq<char>>
    decreases i,
{
    if i <= 0 {
        Ok(acc)
    } else {
        match spec_gen_messages(acc, reg, messages, package, i - 1, pad) {
            Err(e) => Err(e),
            Ok(t) => spec_gen_message(t, reg, messages[i - 1], package, None, pad),
        }
    }
}

proof fn lemma_gen_messages_err(acc: Seq<char>, reg: RegistryModel, messages: Seq<DescriptorProto>, package: Seq<char>, k: int, m: int, pad: Seq<char>)
    requires
        0 <= k <= m,
        spec_gen_messages(acc, reg, messages, package, k, pad) is Err,
    ensures
        spec_gen_messages(acc, reg, messages, package, m, pad) == spec_gen_messages(acc, reg, messages, package, k, pad),
    decreases m - k,
{
    if m > k {
        lemma_gen_messages_err(acc, reg, messages, package, k, m - 1, pad);
    }
}

/// The indentation of a file's code: one level per part of its package.
pub open spec fn file_depth(package: Seq<char>) -> nat {
    if package.len() == 0 {
        0
    } else {
        count_char(package, '.') + 1
    }
}

/// The start of a file's code: its header, its package's modules, and its
/// imports.
pub open spec fn spec_file_head(package: Seq<char>) -> Seq<char> {
    let pad = spec_pad(file_depth(package));
    if package.len() != 0 {
        let parts = split_dot(package);
        mods_open("// @generated by protoc-gen-pcrs.\n"@, parts, parts.len() as int) + "\n"@ + pad + "use protocache_core::{ArrayView, BoolArray, Buffer, FieldDecode, FieldView, GeneratedDescriptor, GeneratedMessage, MapView, MessageView, MutableError, ScalarArray, StringView, Unit, ViewArray, ViewMap, serialize_message_at};\n\n"@ + pad + "use protocache_core::mutable::{MutableArray, MutableArrayElement, MutableField, MutableMap, MutableMessage};\n\n"@
    } else {
        "// @generated by protoc-gen-pcrs.\n"@ + "use protocache_core::{ArrayView, BoolArray, Buffer, FieldDecode, FieldView, GeneratedDescriptor, GeneratedMessage, MapView, MessageView, MutableError, ScalarArray, StringView, Unit, ViewArray, ViewMap, serialize_message_at};\nuse protocache_core::mutable::{MutableArray, MutableArrayElement, MutableField, MutableMap, MutableMessage};\n\n"@
    }
}

/// The code written for a schema file: its enums and messages inside
/// modules of its package.
pub open spec fn spec_generate_file(file: FileDescriptorProto, reg: RegistryModel) -> Result<Seq<char>, Seq<char>> {
    let package = file.package@;
    let pad = spec_pad(file_depth(package));
    let e = spec_gen_enums(spec_file_head(package), file.enum_types@, file.enum_types@.len() as int, pad);
    finish_file(spec_gen_messages(e, reg, file.message_types@, package, file.message_types@.len() as int, pad), package)
}

/// The end of a file's code: the closings of its package's modules.
pub open spec fn finish_file(r: Result<Seq<char>, Seq<char>>, package: Seq<char>) -> Result<Seq<char>, Seq<char>> {
    match r {
        Err(err) => Err(err),
        Ok(t) => if package.len() != 0 {
            let parts = split_dot(package);
            Ok(mods_close(t, parts, parts.len() as int))
        } else {
            Ok(t)
        },
    }
}

/// Writes the code for a schema file.
pub fn generate_file(file: &FileDescriptorProto, reg: &Registry) -> (r: Result<String, String>)
    requires
        reg.wf(),
        file.package@.len() < usize::MAX,
        forall|i: int| 0 <= i < file.message_types@.len() ==> gen_ok(#[trigger] file.message_types@[i]),
    ensures
        text(r) == spec_generate_file(*file, reg.model()),
{
    let package: &str = file.package.as_str();
    let mut out = String::from_str("// @generated by protoc-gen-pcrs.\n");
    let depth: usize = package_depth(package);
    let pad_s: String = make_pad(depth);
    let pad: &str = pad_s.as_str();
    let parts: Vec<String> = split_dots(package);
    let n: usize = parts.len();
    if !package.is_empty() {
        let mut k: usize = 0;
        while k < n
            invariant
                k <= n,
                n == parts@.len(),
                n == split_dot(package@).len(),
                forall|j: int| 0 <= j < parts@.len() ==> (#[trigger] parts@[j])@ == split_dot(package@)[j],
                out@ == mods_open("// @generated by protoc-gen-pcrs.\n"@, split_dot(package@), k as int),
            decreases n - k,
        {
            out.append("pub mod ");
            out.append(parts[k].as_str());
            out.append(" {\n");
            k += 1;
        }
        out.append("\n");
        out.append(pad);
        out.append("use protocache_core::{ArrayView, BoolArray, Buffer, FieldDecode, FieldView, GeneratedDescriptor, GeneratedMessage, MapView, MessageView, MutableError, ScalarArray, StringView, Unit, ViewArray, ViewMap, serialize_message_at};\n\n");
        out.append(pad);
        out.append("use protocache_core::mutable::{MutableArray, MutableArrayElement, MutableField, MutableMap, MutableMessage};\n\n");
    } else {
        out.append("use protocache_core::{ArrayView, BoolArray, Buffer, FieldDecode, FieldView, GeneratedDescriptor, GeneratedMessage, MapView, MessageView, MutableError, ScalarArray, StringView, Unit, ViewArray, ViewMap, serialize_message_at};\nuse protocache_core::mutable::{MutableArray, MutableArrayElement, MutableField, MutableMap, MutableMessage};\n\n");
    }
    assert(out@ == spec_file_head(package@));
    let ghost head = out@;
    let mut i: usize = 0;
    while i < file.enum_types.len()
        invariant
            i <= file.enum_types@.len(),
            out@ == spec_gen_enums(head, file.enum_types@, i as int, pad@),
        decreases file.enum_types@.len() - i,
    {
        generate_enum(&mut out, &file.enum_types[i], pad);
        i += 1;
    }
    let ghost e = out@;
    let m: usize = file.message_types.len();
    assert(spec_generate_file(*file, reg.model()) == finish_file(spec_gen_messages(e, reg.model(), file.message_types@, package@, m as int, pad@), package@));
    let mut k: usize = 0;
    while k < m
        invariant
            k <= m,
            m == file.message_types@.len(),
            reg.wf(),
            forall|i: int| 0 <= i < file.message_types@.len() ==> gen_ok(#[trigger] file.message_types@[i]),
            spec_gen_messages(e, reg.model(), file.message_types@, package@, k as int, pad@) == Ok::<Seq<char>, Seq<char>>(out@),
            spec_generate_file(*file, reg.model()) == finish_file(spec_gen_messages(e, reg.model(), file.message_types@, package@, m as int, pad@), package@),
        decreases m - k,
    {
        assert(gen_ok(file.message_types@[k as int]));
        let ghost before = out@;
        match generate_message(&mut out, reg, &file.message_types[k], package, None, pad) {
            Ok(()) => {},
            Err(err) => {
                proof {
                    assert(spec_gen_messages(e, reg.model(), file.message_types@, package@, (k + 1) as int, pad@) == Err::<Seq<char>, Seq<char>>(err@));
                    lemma_gen_messages_err(e, reg.model(), file.message_types@, package@, (k + 1) as int, m as int, pad@);
                }
                return Err(err);
            },
        }
        k += 1;
    }
    if !package.is_empty() {
        let ghost t = out@;
        let mut k: usize = 0;
        while k < n
            invariant
                k <= n,
                n == parts@.len(),
                n == split_dot(package@).len(),
                forall|j: int| 0 <= j < parts@.len() ==> (#[trigger] parts@[j])@ == split_dot(package@)[j],
                out@ == mods_close(t, split_dot(package@), k as int),
            decreases n - k,
        {
            out.append("} // mod ");
            out.append(parts[n - 1 - k].as_str());
            out.append("\n");
            k += 1;
        }
    }
    Ok(out)
}

/// The code written for one schema file, with the registry of its own
/// types.
pub fn generate_rust_for_file(file: &FileDescriptorProto) -> (r: Result<String, String>)
    requires
        file.package@.len() < usize::MAX,
        forall|i: int| 0 <= i < file.message_types@.len() ==> gen_ok(#[trigger] file.message_types@[i]),
    ensures
        text(r) == spec_generate_file(*file, spec_register_file(empty_model(), *file, false)),
{
    let mut reg = new_registry();
    register_file(&mut reg, file, false);
    generate_file(file, &reg)
}

} // verus!
