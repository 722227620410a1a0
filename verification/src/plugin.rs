//! The Rust code the schema plugin writes: a reader file with readers over
//! message views and their field id constants, and an extra file with the
//! mutable messages.

use vstd::prelude::*;
use vstd::string::{StrSliceExecFns, StringExecFns};
use crate::codegen::{emitted, generate_enum, make_pad, numbers_ok, spec_enum, spec_pad, split_dot, mods_open, mods_close, file_depth, spec_gen_enums, spec_max_number, spec_accessed_words, split_dots, gen_ok};
use crate::codegen_registry::{build_registry, full_of, is_alias_message, is_alias_msg, opt_view, spec_build};
use crate::codegen_types::{
    alias_target, append_signed, append_upper, field_label, field_type, find_rust_type, has_alias,
    is_i32_type, is_i64_type, is_map_field, is_number_type, is_u32_type, is_u64_type, label_of,
    live_fields_by_number, live_order, push_char, repeated_view_return, rust_type_name,
    spec_is_map_field, spec_repeated_view_return, spec_rust_type_name, spec_signed,
    spec_type_title, text, type_of, type_title, upper, AliasTarget, Registry, RegistryModel,
};
use crate::plugin_types::{
    alias_mutable_type, field_detect_expr, field_needs_detect, map_view_return,
    mutable_field_type, mutable_getter_return_type, repeated_scalar_expr, repeated_scalar_return,
    singular_detect_expr, spec_alias_mutable_type, spec_field_detect_expr,
    spec_field_needs_detect, spec_map_view_return, spec_mutable_field_type,
    spec_mutable_getter_return_type, spec_repeated_scalar_expr, spec_repeated_scalar_return,
    spec_singular_detect_expr,
};
use crate::naming::{convert_ex_filename, convert_filename, count_char, file_stem, package_depth, package_prefix};
use crate::reflection::{file_registers, files_keys, files_register, load_descriptor_pool, message_valid, file_well_formed, has_key, spec_full_name, DescriptorPool, DescriptorProto, EnumDescriptorProto, FieldDescriptorProto, FileDescriptorProto, RegisterError};
use crate::codegen_types::spec_entry_fields;
use crate::codegen_types::entry_fields;

verus! {

/// The getter a reader has for one of its fields, by the field's id
/// constant.
pub open spec fn spec_getter(acc: Seq<char>, reg: RegistryModel, field: FieldDescriptorProto, pad: Seq<char>) -> Result<Seq<char>, Seq<char>> {
    let label = label_of(field.label);
    let ty = type_of(field.type_code);
    let tr = field.type_ref@;
    if spec_is_map_field(reg, label, ty, tr) {
        match spec_map_view_return(reg, tr) {
            Err(e) => Err(e),
            Ok(rt) => Ok(acc + pad + "    pub fn "@ + field.name@ + "(self) -> Option<"@ + rt + "> {\n"@ + pad + "        Some(ViewMap::new(self.view.map(Self::"@ + upper(field.name@) + "_FIELD_ID)?))\n"@ + pad + "    }\n\n"@),
        }
    } else if label == 3 {
        match spec_repeated_scalar_return(label, ty) {
            Some(rt) => match spec_repeated_scalar_expr(ty, field.name@, "self.view.array(Self::"@ + upper(field.name@) + "_FIELD_ID)?"@) {
                Err(e) => Err(e),
                Ok(ex) => Ok(acc + pad + "    pub fn "@ + field.name@ + "(self) -> "@ + rt + " {\n"@ + pad + "        "@ + ex + "\n"@ + pad + "    }\n\n"@),
            },
            None => match spec_repeated_view_return(reg, label, ty, tr) {
                Err(e) => Err(e),
                Ok(Some(rt)) => Ok(acc + pad + "    pub fn "@ + field.name@ + "(self) -> Option<"@ + rt + "> {\n"@ + pad + "        Some(ViewArray::new(self.view.array(Self::"@ + upper(field.name@) + "_FIELD_ID)?))\n"@ + pad + "    }\n\n"@),
                Ok(None) => Ok(acc + pad + "    pub fn "@ + field.name@ + "(self) -> Option<ArrayView<'a>> {\n"@ + pad + "        self.view.array(Self::"@ + upper(field.name@) + "_FIELD_ID)\n"@ + pad + "    }\n\n"@),
            },
        }
    } else if ty == 9 {
        Ok(acc + pad + "    pub fn "@ + field.name@ + "(self) -> Option<&'a str> {\n"@ + pad + "        self.view.string(Self::"@ + upper(field.name@) + "_FIELD_ID)?.as_str()\n"@ + pad + "    }\n\n"@)
    } else if ty == 12 {
        Ok(acc + pad + "    pub fn "@ + field.name@ + "(self) -> Option<&'a [u8]> {\n"@ + pad + "        self.view.bytes(Self::"@ + upper(field.name@) + "_FIELD_ID)\n"@ + pad + "    }\n\n"@)
    } else if ty == 8 {
        Ok(acc + pad + "    pub fn "@ + field.name@ + "(self) -> bool {\n"@ + pad + "        self.view.scalar::<bool>(Self::"@ + upper(field.name@) + "_FIELD_ID).unwrap_or(false)\n"@ + pad + "    }\n\n"@)
    } else if is_i32_type(ty) {
        Ok(acc + pad + "    pub fn "@ + field.name@ + "(self) -> i32 {\n"@ + pad + "        self.view.scalar::<i32>(Self::"@ + upper(field.name@) + "_FIELD_ID).unwrap_or_default()\n"@ + pad + "    }\n\n"@)
    } else if is_u32_type(ty) {
        Ok(acc + pad + "    pub fn "@ + field.name@ + "(self) -> u32 {\n"@ + pad + "        self.view.scalar::<u32>(Self::"@ + upper(field.name@) + "_FIELD_ID).unwrap_or_default()\n"@ + pad + "    }\n\n"@)
    } else if is_i64_type(ty) {
        Ok(acc + pad + "    pub fn "@ + field.name@ + "(self) -> i64 {\n"@ + pad + "        self.view.scalar::<i64>(Self::"@ + upper(field.name@) + "_FIELD_ID).unwrap_or_default()\n"@ + pad + "    }\n\n"@)
    } else if is_u64_type(ty) {
        Ok(acc + pad + "    pub fn "@ + field.name@ + "(self) -> u64 {\n"@ + pad + "        self.view.scalar::<u64>(Self::"@ + upper(field.name@) + "_FIELD_ID).unwrap_or_default()\n"@ + pad + "    }\n\n"@)
    } else if ty == 2 {
        Ok(acc + pad + "    pub fn "@ + field.name@ + "(self) -> f32 {\n"@ + pad + "        self.view.scalar::<f32>(Self::"@ + upper(field.name@) + "_FIELD_ID).unwrap_or_default()\n"@ + pad + "    }\n\n"@)
    } else if ty == 1 {
        Ok(acc + pad + "    pub fn "@ + field.name@ + "(self) -> f64 {\n"@ + pad + "        self.view.scalar::<f64>(Self::"@ + upper(field.name@) + "_FIELD_ID).unwrap_or_default()\n"@ + pad + "    }\n\n"@)
    } else if ty == 14 {
        Ok(acc + pad + "    pub fn "@ + field.name@ + "(self) -> EnumValue {\n"@ + pad + "        self.view.scalar::<EnumValue>(Self::"@ + upper(field.name@) + "_FIELD_ID).unwrap_or_default()\n"@ + pad + "    }\n\n"@)
    } else if ty == 11 {
        match spec_rust_type_name(reg, tr) {
            Err(e) => Err(e),
            Ok(rt) => if reg.is_alias(tr) {
                Ok(acc + pad + "    pub fn "@ + field.name@ + "(self) -> Option<"@ + rt + "<'a>> {\n"@ + pad + "        "@ + rt + "::FromWords(self.view.field(Self::"@ + upper(field.name@) + "_FIELD_ID)?.object_words()?)\n"@ + pad + "    }\n\n"@)
            } else {
                Ok(acc + pad + "    pub fn "@ + field.name@ + "(self) -> Option<"@ + rt + "<'a>> {\n"@ + pad + "        Some("@ + rt + " { view: self.view.message(Self::"@ + upper(field.name@) + "_FIELD_ID)? })\n"@ + pad + "    }\n\n"@)
            },
        }
    } else {
        Err("unsupported field type "@ + spec_type_title(ty) + " for "@ + field.name@)
    }
}

/// A reader's getter for a singular `bool` field returns `bool` and falls
/// back to `false`, the proto default, when the field is absent: the text it
/// appends to `acc` opens `fn name(self) -> bool` and ends its expression with
/// `.unwrap_or(false)` on the line before the closing brace.
pub proof fn lemma_bool_getter_defaults_to_false(acc: Seq<char>, reg: RegistryModel, field: FieldDescriptorProto, pad: Seq<char>)
    requires
        field.type_code == Some(8i32),
        label_of(field.label) != 3,
    ensures
        spec_getter(acc, reg, field, pad) is Ok,
        ({
            let s = spec_getter(acc, reg, field, pad)->Ok_0;
            let head = acc + pad + "    pub fn "@ + field.name@ + "(self) -> bool {\n"@;
            let tail = ".unwrap_or(false)\n"@ + pad + "    }\n\n"@;
            &&& s.len() >= head.len() + tail.len()
            &&& s.subrange(0, head.len() as int) == head
            &&& s.subrange(s.len() - tail.len(), s.len() as int) == tail
        }),
{
    reveal_strlit("_FIELD_ID).unwrap_or(false)\n");
    reveal_strlit("_FIELD_ID)");
    reveal_strlit(".unwrap_or(false)\n");
    let s = spec_getter(acc, reg, field, pad)->Ok_0;
    let head = acc + pad + "    pub fn "@ + field.name@ + "(self) -> bool {\n"@;
    let mid = pad + "        self.view.scalar::<bool>(Self::"@ + upper(field.name@) + "_FIELD_ID)"@;
    let tail = ".unwrap_or(false)\n"@ + pad + "    }\n\n"@;
    assert("_FIELD_ID).unwrap_or(false)\n"@ =~= "_FIELD_ID)"@ + ".unwrap_or(false)\n"@);
    assert(s =~= head + mid + tail);
    assert(s.subrange(0, head.len() as int) =~= head);
    assert(s.subrange(s.len() - tail.len(), s.len() as int) =~= tail);
}

/// Writes the getter a reader has for one of its fields.
pub fn generate_getter(out: &mut String, reg: &Registry, field: &FieldDescriptorProto, pad: &str) -> (r: Result<(), String>)
    requires
        reg.wf(),
    ensures
        emitted(r, final(out)@) == spec_getter(old(out)@, reg.model(), *field, pad@),
{
    let label: i32 = field_label(field.label);
    let ty: i32 = field_type(field.type_code);
    let tr: &str = field.type_ref.as_str();
    if is_map_field(reg, label, ty, tr) {
        let rt = match map_view_return(reg, tr) {
            Ok(x) => x,
            Err(e) => {
                return Err(e);
            },
        };
        out.append(pad);
        out.append("    pub fn ");
        out.append(field.name.as_str());
        out.append("(self) -> Option<");
        out.append(rt.as_str());
        out.append("> {\n");
        out.append(pad);
        out.append("        Some(ViewMap::new(self.view.map(Self::");
        append_upper(out, field.name.as_str());
        out.append("_FIELD_ID)?))\n");
        out.append(pad);
        out.append("    }\n\n");
        return Ok(());
    }
    if label == 3 {
        match repeated_scalar_return(label, ty) {
            Some(rt) => {
                let mut ae = String::from_str("self.view.array(Self::");
                append_upper(&mut ae, field.name.as_str());
                ae.append("_FIELD_ID)?");
                let ex = match repeated_scalar_expr(ty, field.name.as_str(), ae.as_str()) {
                    Ok(x) => x,
                    Err(e) => {
                        return Err(e);
                    },
                };
                out.append(pad);
                out.append("    pub fn ");
                out.append(field.name.as_str());
                out.append("(self) -> ");
                out.append(rt.as_str());
                out.append(" {\n");
                out.append(pad);
                out.append("        ");
                out.append(ex.as_str());
                out.append("\n");
                out.append(pad);
                out.append("    }\n\n");
                return Ok(());
            },
            None => {},
        }
        match repeated_view_return(reg, label, ty, tr) {
            Err(e) => {
                return Err(e);
            },
            Ok(Some(rt)) => {
                out.append(pad);
                out.append("    pub fn ");
                out.append(field.name.as_str());
                out.append("(self) -> Option<");
                out.append(rt.as_str());
                out.append("> {\n");
                out.append(pad);
                out.append("        Some(ViewArray::new(self.view.array(Self::");
                append_upper(out, field.name.as_str());
                out.append("_FIELD_ID)?))\n");
                out.append(pad);
                out.append("    }\n\n");
            },
            Ok(None) => {
                out.append(pad);
                out.append("    pub fn ");
                out.append(field.name.as_str());
                out.append("(self) -> Option<ArrayView<'a>> {\n");
                out.append(pad);
                out.append("        self.view.array(Self::");
                append_upper(out, field.name.as_str());
                out.append("_FIELD_ID)\n");
                out.append(pad);
                out.append("    }\n\n");
            },
        }
        return Ok(());
    }
    if ty == 9 {
        out.append(pad);
        out.append("    pub fn ");
        out.append(field.name.as_str());
        out.append("(self) -> Option<&'a str> {\n");
        out.append(pad);
        out.append("        self.view.string(Self::");
        append_upper(out, field.name.as_str());
        out.append("_FIELD_ID)?.as_str()\n");
        out.append(pad);
        out.append("    }\n\n");
    } else if ty == 12 {
        out.append(pad);
        out.append("    pub fn ");
        out.append(field.name.as_str());
        out.append("(self) -> Option<&'a [u8]> {\n");
        out.append(pad);
        out.append("        self.view.bytes(Self::");
        append_upper(out, field.name.as_str());
        out.append("_FIELD_ID)\n");
        out.append(pad);
        out.append("    }\n\n");
    } else if ty == 8 {
        out.append(pad);
        out.append("    pub fn ");
        out.append(field.name.as_str());
        out.append("(self) -> bool {\n");
        out.append(pad);
        out.append("        self.view.scalar::<bool>(Self::");
        append_upper(out, field.name.as_str());
        out.append("_FIELD_ID).unwrap_or(false)\n");
        out.append(pad);
        out.append("    }\n\n");
    } else if ty == 5 || ty == 17 || ty == 15 {
        out.append(pad);
        out.append("    pub fn ");
        out.append(field.name.as_str());
        out.append("(self) -> i32 {\n");
        out.append(pad);
        out.append("        self.view.scalar::<i32>(Self::");
        append_upper(out, field.name.as_str());
        out.append("_FIELD_ID).unwrap_or_default()\n");
        out.append(pad);
        out.append("    }\n\n");
    } else if ty == 13 || ty == 7 {
        out.append(pad);
        out.append("    pub fn ");
        out.append(field.name.as_str());
        out.append("(self) -> u32 {\n");
        out.append(pad);
        out.append("        self.view.scalar::<u32>(Self::");
        append_upper(out, field.name.as_str());
        out.append("_FIELD_ID).unwrap_or_default()\n");
        out.append(pad);
        out.append("    }\n\n");
    } else if ty == 3 || ty == 18 || ty == 16 {
        out.append(pad);
        out.append("    pub fn ");
        out.append(field.name.as_str());
        out.append("(self) -> i64 {\n");
        out.append(pad);
        out.append("        self.view.scalar::<i64>(Self::");
        append_upper(out, field.name.as_str());
        out.append("_FIELD_ID).unwrap_or_default()\n");
        out.append(pad);
        out.append("    }\n\n");
    } else if ty == 4 || ty == 6 {
        out.append(pad);
        out.append("    pub fn ");
        out.append(field.name.as_str());
        out.append("(self) -> u64 {\n");
        out.append(pad);
        out.append("        self.view.scalar::<u64>(Self::");
        append_upper(out, field.name.as_str());
        out.append("_FIELD_ID).unwrap_or_default()\n");
        out.append(pad);
        out.append("    }\n\n");
    } else if ty == 2 {
        out.append(pad);
        out.append("    pub fn ");
        out.append(field.name.as_str());
        out.append("(self) -> f32 {\n");
        out.append(pad);
        out.append("        self.view.scalar::<f32>(Self::");
        append_upper(out, field.name.as_str());
        out.append("_FIELD_ID).unwrap_or_default()\n");
        out.append(pad);
        out.append("    }\n\n");
    } else if ty == 1 {
        out.append(pad);
        out.append("    pub fn ");
        out.append(field.name.as_str());
        out.append("(self) -> f64 {\n");
        out.append(pad);
        out.append("        self.view.scalar::<f64>(Self::");
        append_upper(out, field.name.as_str());
        out.append("_FIELD_ID).unwrap_or_default()\n");
        out.append(pad);
        out.append("    }\n\n");
    } else if ty == 14 {
        out.append(pad);
        out.append("    pub fn ");
        out.append(field.name.as_str());
        out.append("(self) -> EnumValue {\n");
        out.append(pad);
        out.append("        self.view.scalar::<EnumValue>(Self::");
        append_upper(out, field.name.as_str());
        out.append("_FIELD_ID).unwrap_or_default()\n");
        out.append(pad);
        out.append("    }\n\n");
    } else if ty == 11 {
        let rt = match rust_type_name(reg, tr) {
            Ok(x) => x,
            Err(e) => {
                return Err(e);
            },
        };
        if has_alias(reg, tr) {
        out.append(pad);
        out.append("    pub fn ");
        out.append(field.name.as_str());
        out.append("(self) -> Option<");
        out.append(rt.as_str());
        out.append("<'a>> {\n");
        out.append(pad);
        out.append("        ");
        out.append(rt.as_str());
        out.append("::FromWords(self.view.field(Self::");
        append_upper(out, field.name.as_str());
        out.append("_FIELD_ID)?.object_words()?)\n");
        out.append(pad);
        out.append("    }\n\n");
        } else {
        out.append(pad);
        out.append("    pub fn ");
        out.append(field.name.as_str());
        out.append("(self) -> Option<");
        out.append(rt.as_str());
        out.append("<'a>> {\n");
        out.append(pad);
        out.append("        Some(");
        out.append(rt.as_str());
        out.append(" { view: self.view.message(Self::");
        append_upper(out, field.name.as_str());
        out.append("_FIELD_ID)? })\n");
        out.append(pad);
        out.append("    }\n\n");
        }
    } else {
        return Err(String::from_str("unsupported field type ").concat(type_title(ty)).concat(" for ").concat(field.name.as_str()));
    }
    Ok(())
}

/// The getter a mutable message has for one of its fields, by the id
/// constant of the reader named `ro`.
pub open spec fn spec_mutable_getter(acc: Seq<char>, reg: RegistryModel, field: FieldDescriptorProto, pad: Seq<char>, ro: Seq<char>) -> Result<Seq<char>, Seq<char>> {
    let label = label_of(field.label);
    let ty = type_of(field.type_code);
    let tr = field.type_ref@;
    match spec_mutable_getter_return_type(reg, label, ty, tr) {
        Err(e) => Err(e),
        Ok(rt) => if label == 1 && ty == 11 && !spec_is_map_field(reg, label, ty, tr) {
            Ok(acc + pad + "    pub fn "@ + field.name@ + "(&mut self) -> "@ + rt + " {\n"@ + pad + "        self.__view__.get_field("@ + ro + "::"@ + upper(field.name@) + "_FIELD_ID, &mut self._"@ + field.name@ + ").as_mut()\n"@ + pad + "    }\n\n"@)
        } else {
            Ok(acc + pad + "    pub fn "@ + field.name@ + "(&mut self) -> "@ + rt + " {\n"@ + pad + "        self.__view__.get_field("@ + ro + "::"@ + upper(field.name@) + "_FIELD_ID, &mut self._"@ + field.name@ + ")\n"@ + pad + "    }\n\n"@)
        },
    }
}

/// Writes the getter a mutable message has for one of its fields.
pub fn generate_mutable_getter(out: &mut String, reg: &Registry, field: &FieldDescriptorProto, pad: &str, ro: &str) -> (r: Result<(), String>)
    requires
        reg.wf(),
    ensures
        emitted(r, final(out)@) == spec_mutable_getter(old(out)@, reg.model(), *field, pad@, ro@),
{
    let label: i32 = field_label(field.label);
    let ty: i32 = field_type(field.type_code);
    let tr: &str = field.type_ref.as_str();
    let rt = match mutable_getter_return_type(reg, label, ty, tr) {
        Ok(x) => x,
        Err(e) => {
            return Err(e);
        },
    };
    if label == 1 && ty == 11 && !is_map_field(reg, label, ty, tr) {
        out.append(pad);
        out.append("    pub fn ");
        out.append(field.name.as_str());
        out.append("(&mut self) -> ");
        out.append(rt.as_str());
        out.append(" {\n");
        out.append(pad);
        out.append("        self.__view__.get_field(");
        out.append(ro);
        out.append("::");
        append_upper(out, field.name.as_str());
        out.append("_FIELD_ID, &mut self._");
        out.append(field.name.as_str());
        out.append(").as_mut()\n");
        out.append(pad);
        out.append("    }\n\n");
    } else {
        out.append(pad);
        out.append("    pub fn ");
        out.append(field.name.as_str());
        out.append("(&mut self) -> ");
        out.append(rt.as_str());
        out.append(" {\n");
        out.append(pad);
        out.append("        self.__view__.get_field(");
        out.append(ro);
        out.append("::");
        append_upper(out, field.name.as_str());
        out.append("_FIELD_ID, &mut self._");
        out.append(field.name.as_str());
        out.append(")\n");
        out.append(pad);
        out.append("    }\n\n");
    }
    Ok(())
}

/// The check of one field in the extent of a message: only a field that
/// can reach past the message's cells is checked, and the first that does
/// gives the extent.
pub open spec fn spec_detect_field(acc: Seq<char>, reg: RegistryModel, field: FieldDescriptorProto, pad: Seq<char>) -> Result<Seq<char>, Seq<char>> {
    if !spec_field_needs_detect(reg, field) {
        Ok(acc)
    } else {
        match spec_field_detect_expr(reg, label_of(field.label), type_of(field.type_code), field.type_ref@, "field"@) {
            Err(e) => Err(e),
            Ok(de) => Ok(acc + pad + "        if let Some(field) = core.field(Self::"@ + upper(field.name@) + "_FIELD_ID) {\n"@ + pad + "            let mut end = view.len();\n"@ + pad + "            protocache_core::detect_slice_end(words, "@ + de + "?, &mut end)?;\n"@ + pad + "            if end > view.len() {\n"@ + pad + "                return Some(end);\n"@ + pad + "            }\n"@ + pad + "        }\n"@),
        }
    }
}

/// The checks of the last `k` fields of `order`, the last first.
pub open spec fn spec_detect_fields(acc: Seq<char>, reg: RegistryModel, fields: Seq<FieldDescriptorProto>, order: Seq<usize>, k: int, pad: Seq<char>) -> Result<Seq<char>, Seq<char>>
    decreases k,
{
    if k <= 0 {
        Ok(acc)
    } else {
        match spec_detect_fields(acc, reg, fields, order, k - 1, pad) {
            Err(e) => Err(e),
            Ok(t) => spec_detect_field(t, reg, fields[order[order.len() - k] as int], pad),
        }
    }
}

proof fn lemma_detect_fields_err(acc: Seq<char>, reg: RegistryModel, fields: Seq<FieldDescriptorProto>, order: Seq<usize>, k: int, m: int, pad: Seq<char>)
    requires
        0 <= k <= m,
        spec_detect_fields(acc, reg, fields, order, k, pad) is Err,
    ensures
        spec_detect_fields(acc, reg, fields, order, m, pad) == spec_detect_fields(acc, reg, fields, order, k, pad),
    decreases m - k,
{
    if m > k {
        lemma_detect_fields_err(acc, reg, fields, order, k, m - 1, pad);
    }
}

/// The end of the function for the extent of a message, after its checks.
pub open spec fn finish_detect(r: Result<Seq<char>, Seq<char>>, pad: Seq<char>) -> Result<Seq<char>, Seq<char>> {
    match r {
        Err(e) => Err(e),
        Ok(t) => Ok(t + pad + "        Some(view.len())\n"@ + pad + "    }\n"@),
    }
}

/// The function a reader has for the extent of its message.
pub open spec fn spec_message_detect_len(acc: Seq<char>, reg: RegistryModel, message: DescriptorProto, pad: Seq<char>) -> Result<Seq<char>, Seq<char>> {
    let order = live_order(message.fields@);
    let head = acc + pad + "    fn DetectLen(words: &'a [u32]) -> Option<usize> {\n"@ + pad + "        let view = MessageView::detect(words)?;\n"@;
    if order.len() == 0 {
        Ok(head + pad + "        Some(view.len())\n"@ + pad + "    }\n"@)
    } else {
        let start = head + pad + "        let core = MessageView::new(words)?;\n"@;
        finish_detect(spec_detect_fields(start, reg, message.fields@, order, order.len() as int, pad), pad)
    }
}

/// Writes the function a reader has for the extent of its message.
pub fn write_message_detect_len(out: &mut String, reg: &Registry, message: &DescriptorProto, pad: &str) -> (r: Result<(), String>)
    requires
        reg.wf(),
    ensures
        emitted(r, final(out)@) == spec_message_detect_len(old(out)@, reg.model(), *message, pad@),
{
    out.append(pad);
    out.append("    fn DetectLen(words: &'a [u32]) -> Option<usize> {\n");
    out.append(pad);
    out.append("        let view = MessageView::detect(words)?;\n");
    let order: Vec<usize> = live_fields_by_number(&message.fields);
    if order.len() == 0 {
        out.append(pad);
        out.append("        Some(view.len())\n");
        out.append(pad);
        out.append("    }\n");
        return Ok(());
    }
    out.append(pad);
    out.append("        let core = MessageView::new(words)?;\n");
    let ghost start = out@;
    let n: usize = order.len();
    assert(spec_message_detect_len(old(out)@, reg.model(), *message, pad@) == finish_detect(spec_detect_fields(start, reg.model(), message.fields@, order@, n as int, pad@), pad@));
    let mut k: usize = 0;
    while k < n
        invariant
            k <= n,
            spec_message_detect_len(old(out)@, reg.model(), *message, pad@) == finish_detect(spec_detect_fields(start, reg.model(), message.fields@, order@, n as int, pad@), pad@),
            n == order@.len(),
            order@ == live_order(message.fields@),
            forall|i: int| 0 <= i < order@.len() ==> order@[i] < message.fields@.len(),
            reg.wf(),
            spec_detect_fields(start, reg.model(), message.fields@, order@, k as int, pad@) == Ok::<Seq<char>, Seq<char>>(out@),
        decreases n - k,
    {
        let field: &FieldDescriptorProto = &message.fields[order[n - 1 - k]];
        if field_needs_detect(reg, field) {
            let de = match field_detect_expr(reg, field_label(field.label), field_type(field.type_code), field.type_ref.as_str(), "field") {
                Ok(x) => x,
                Err(e) => {
                    proof {
                        assert(spec_detect_fields(start, reg.model(), message.fields@, order@, (k + 1) as int, pad@) == Err::<Seq<char>, Seq<char>>(e@));
                        lemma_detect_fields_err(start, reg.model(), message.fields@, order@, (k + 1) as int, n as int, pad@);
                    }
                    return Err(e);
                },
            };
            out.append(pad);
            out.append("        if let Some(field) = core.field(Self::");
            append_upper(out, field.name.as_str());
            out.append("_FIELD_ID) {\n");
            out.append(pad);
            out.append("            let mut end = view.len();\n");
            out.append(pad);
            out.append("            protocache_core::detect_slice_end(words, ");
            out.append(de.as_str());
            out.append("?, &mut end)?;\n");
            out.append(pad);
            out.append("            if end > view.len() {\n");
            out.append(pad);
            out.append("                return Some(end);\n");
            out.append(pad);
            out.append("            }\n");
            out.append(pad);
            out.append("        }\n");
        }
        k += 1;
    }
    out.append(pad);
    out.append("        Some(view.len())\n");
    out.append(pad);
    out.append("    }\n");
    Ok(())
}

/// The function a reader of an alias of an array has for its extent.
pub open spec fn spec_alias_array_detect_len(acc: Seq<char>, reg: RegistryModel, field: FieldDescriptorProto, pad: Seq<char>) -> Result<Seq<char>, Seq<char>> {
    let ty = type_of(field.type_code);
    let head = acc + pad + "    fn DetectLen(words: &'a [u32]) -> Option<usize> {\n"@;
    if is_number_type(ty) {
        Ok(head + pad + "        ArrayView::detect_len(words)\n"@ + pad + "    }\n"@)
    } else {
        match spec_singular_detect_expr(reg, ty, field.type_ref@, "item"@) {
            Err(e) => Err(e),
            Ok(de) => Ok(head + pad + "        Some(protocache_core::detect_array_with(words, |item| "@ + de + ")?.len())\n"@ + pad + "    }\n"@),
        }
    }
}

/// Writes the function a reader of an alias of an array has for its
/// extent.
pub fn write_alias_array_detect_len(out: &mut String, reg: &Registry, field: &FieldDescriptorProto, pad: &str) -> (r: Result<(), String>)
    requires
        reg.wf(),
    ensures
        emitted(r, final(out)@) == spec_alias_array_detect_len(old(out)@, reg.model(), *field, pad@),
{
    let ty: i32 = field_type(field.type_code);
    out.append(pad);
    out.append("    fn DetectLen(words: &'a [u32]) -> Option<usize> {\n");
    if ty == 5 || ty == 17 || ty == 15 || ty == 13 || ty == 7 || ty == 3 || ty == 18 || ty == 16 || ty == 4 || ty == 6 || ty == 2 || ty == 1 || ty == 14 {
        out.append(pad);
        out.append("        ArrayView::detect_len(words)\n");
        out.append(pad);
        out.append("    }\n");
    } else {
        let de = match singular_detect_expr(reg, ty, field.type_ref.as_str(), "item") {
            Ok(x) => x,
            Err(e) => {
                return Err(e);
            },
        };
        out.append(pad);
        out.append("        Some(protocache_core::detect_array_with(words, |item| ");
        out.append(de.as_str());
        out.append(")?.len())\n");
        out.append(pad);
        out.append("    }\n");
    }
    Ok(())
}

/// The function a reader of an alias of a map has for its extent.
pub open spec fn spec_alias_map_detect_len(acc: Seq<char>, reg: RegistryModel, field: FieldDescriptorProto, pad: Seq<char>) -> Result<Seq<char>, Seq<char>> {
    match spec_entry_fields(reg, field.type_ref@, "missing alias map entry for "@) {
        Err(e) => Err(e),
        Ok((k, v)) => match spec_singular_detect_expr(reg, k.0, k.1, "key"@) {
            Err(e) => Err(e),
            Ok(ke) => match spec_singular_detect_expr(reg, v.0, v.1, "value"@) {
                Err(e) => Err(e),
                Ok(ve) => Ok(acc + pad + "    fn DetectLen(words: &'a [u32]) -> Option<usize> {\n"@ + pad + "        Some(protocache_core::detect_map_with(words, |key| "@ + ke + ", |value| "@ + ve + ")?.len())\n"@ + pad + "    }\n"@),
            },
        },
    }
}

/// Writes the function a reader of an alias of a map has for its extent.
pub fn write_alias_map_detect_len(out: &mut String, reg: &Registry, field: &FieldDescriptorProto, pad: &str) -> (r: Result<(), String>)
    requires
        reg.wf(),
    ensures
        emitted(r, final(out)@) == spec_alias_map_detect_len(old(out)@, reg.model(), *field, pad@),
{
    let (k, v) = match entry_fields(reg, field.type_ref.as_str(), "missing alias map entry for ") {
        Ok(kv) => kv,
        Err(e) => {
            return Err(e);
        },
    };
    let ke = match singular_detect_expr(reg, k.ty, k.type_ref.as_str(), "key") {
        Ok(x) => x,
        Err(e) => {
            return Err(e);
        },
    };
    let ve = match singular_detect_expr(reg, v.ty, v.type_ref.as_str(), "value") {
        Ok(x) => x,
        Err(e) => {
            return Err(e);
        },
    };
    out.append(pad);
    out.append("    fn DetectLen(words: &'a [u32]) -> Option<usize> {\n");
    out.append(pad);
    out.append("        Some(protocache_core::detect_map_with(words, |key| ");
    out.append(ke.as_str());
    out.append(", |value| ");
    out.append(ve.as_str());
    out.append(")?.len())\n");
    out.append(pad);
    out.append("    }\n");
    Ok(())
}

/// Whether a type is written `Option<T>` (with at least the closing
/// bracket after the opening one).
pub open spec fn has_option_shape(rt: Seq<char>) -> bool {
    &&& rt.len() >= 8
    &&& rt[0] == 'O' && rt[1] == 'p' && rt[2] == 't' && rt[3] == 'i' && rt[4] == 'o' && rt[5] == 'n'
    &&& rt[6] == '<' && rt[rt.len() - 1] == '>'
}

/// The type inside `Option<..>`.
pub open spec fn spec_strip_option(rt: Seq<char>) -> Result<Seq<char>, Seq<char>> {
    if has_option_shape(rt) {
        Ok(rt.subrange(7, rt.len() - 1))
    } else {
        Err("alias scalar return should be Option<T>: "@ + rt)
    }
}

/// The type inside `Option<..>`.
fn strip_option(rt: &str) -> (r: Result<String, String>)
    ensures
        text(r) == spec_strip_option(rt@),
{
    let n: usize = rt.unicode_len();
    if n >= 8 && rt.get_char(0) == 'O' && rt.get_char(1) == 'p' && rt.get_char(2) == 't' && rt.get_char(3) == 'i'
        && rt.get_char(4) == 'o' && rt.get_char(5) == 'n' && rt.get_char(6) == '<' && rt.get_char(n - 1) == '>' {
        Ok(String::from_str(rt.substring_char(7, n - 1)))
    } else {
        Err(String::from_str("alias scalar return should be Option<T>: ").concat(rt))
    }
}

/// The start of a reader of an alias: its struct over an array or map
/// view, and its constructor.
pub open spec fn spec_alias_head(acc: Seq<char>, rn: Seq<char>, target: AliasTarget, pad: Seq<char>) -> Seq<char> {
    match target {
        AliasTarget::BoolArray => acc + pad + "#[derive(Clone, Copy, Debug)]\n"@ + pad + "pub struct "@ + rn + "<'a> {\n"@ + pad + "    view: ArrayView<'a>,\n"@ + pad + "}\n\n"@ + pad + "impl<'a> "@ + rn + "<'a> {\n"@ + pad + "    pub fn FromWords(words: &'a [u32]) -> Option<Self> {\n"@ + pad + "        Some(Self { view: ArrayView::new(words)? })\n"@ + pad + "    }\n"@,
        AliasTarget::Array => acc + pad + "#[derive(Clone, Copy, Debug)]\n"@ + pad + "pub struct "@ + rn + "<'a> {\n"@ + pad + "    view: ArrayView<'a>,\n"@ + pad + "}\n\n"@ + pad + "impl<'a> "@ + rn + "<'a> {\n"@ + pad + "    pub fn FromWords(words: &'a [u32]) -> Option<Self> {\n"@ + pad + "        Some(Self { view: ArrayView::new(words)? })\n"@ + pad + "    }\n"@,
        AliasTarget::MapEntries => acc + pad + "#[derive(Clone, Copy, Debug)]\n"@ + pad + "pub struct "@ + rn + "<'a> {\n"@ + pad + "    view: MapView<'a>,\n"@ + pad + "}\n\n"@ + pad + "impl<'a> "@ + rn + "<'a> {\n"@ + pad + "    pub fn FromWords(words: &'a [u32]) -> Option<Self> {\n"@ + pad + "        Some(Self { view: MapView::new(words)? })\n"@ + pad + "    }\n"@,
    }
}

/// The extent functions of a reader of an alias.
pub open spec fn spec_alias_detect(acc: Seq<char>, reg: RegistryModel, field: FieldDescriptorProto, target: AliasTarget, pad: Seq<char>) -> Result<Seq<char>, Seq<char>> {
    match target {
        AliasTarget::BoolArray => Ok(acc + pad + "    fn DetectLen(words: &'a [u32]) -> Option<usize> {\n"@ + pad + "        ArrayView::detect_len(words)\n"@ + pad + "    }\n"@ + pad + "    pub fn Detect(words: &'a [u32]) -> Option<&'a [u32]> {\n"@ + pad + "        Some(words.get(..Self::DetectLen(words)?)?)\n"@ + pad + "    }\n"@),
        AliasTarget::Array => match spec_alias_array_detect_len(acc, reg, field, pad) {
            Err(e) => Err(e),
            Ok(t) => Ok(t + pad + "    pub fn Detect(words: &'a [u32]) -> Option<&'a [u32]> {\n"@ + pad + "        Some(words.get(..Self::DetectLen(words)?)?)\n"@ + pad + "    }\n"@),
        },
        AliasTarget::MapEntries => match spec_alias_map_detect_len(acc, reg, field, pad) {
            Err(e) => Err(e),
            Ok(t) => Ok(t + pad + "    pub fn Detect(words: &'a [u32]) -> Option<&'a [u32]> {\n"@ + pad + "        Some(words.get(..Self::DetectLen(words)?)?)\n"@ + pad + "    }\n"@),
        },
    }
}

/// The typed accessor of a reader of an alias: the values of an array,
/// which a number array reads without an option, or the entries of a map.
pub open spec fn spec_alias_values(acc: Seq<char>, reg: RegistryModel, field: FieldDescriptorProto, rn: Seq<char>, target: AliasTarget, pad: Seq<char>) -> Result<Seq<char>, Seq<char>> {
    let label = label_of(field.label);
    let ty = type_of(field.type_code);
    let tr = field.type_ref@;
    match target {
        AliasTarget::Array => match spec_repeated_scalar_return(label, ty) {
            Some(rt) => match spec_strip_option(rt) {
                Err(e) => Err(e),
                Ok(dt) => {
                    let a = acc + pad + "    pub fn values(self) -> "@ + dt + " {\n"@;
                    match spec_repeated_scalar_expr(ty, field.name@, "self.view"@) {
                        Err(e) => Err(e),
                        Ok(ex) => Ok(a + pad + "        "@ + ex + ".expect(\"generated alias invariant violated: "@ + rn + "\")\n"@ + pad + "    }\n"@),
                    }
                },
            },
            None => match spec_repeated_view_return(reg, label, ty, tr) {
                Err(e) => Err(e),
                Ok(Some(rt)) => Ok(acc + pad + "    pub fn values(self) -> "@ + rt + " {\n"@ + pad + "        ViewArray::new(self.view)\n"@ + pad + "    }\n"@),
                Ok(None) => Ok(acc),
            },
        },
        AliasTarget::MapEntries => match spec_map_view_return(reg, tr) {
            Err(e) => Err(e),
            Ok(rt) => Ok(acc + pad + "    pub fn entries(self) -> "@ + rt + " {\n"@ + pad + "        ViewMap::new(self.view)\n"@ + pad + "    }\n"@),
        },
        AliasTarget::BoolArray => Ok(acc),
    }
}

/// The reader of an alias registered as `full`.
#[verifier::opaque]
pub open spec fn spec_alias_readonly(acc: Seq<char>, reg: RegistryModel, message: DescriptorProto, full: Seq<char>, pad: Seq<char>) -> Result<Seq<char>, Seq<char>> {
    match reg.rust_type_of(full) {
        None => Err("missing alias rust name for "@ + full),
        Some(rn) => match reg.alias_of(full) {
            None => Err("missing alias target for "@ + full),
            Some(target) => {
                let field = message.fields@[0];
                match spec_alias_detect(spec_alias_head(acc, rn, target, pad), reg, field, target, pad) {
                    Err(e) => Err(e),
                    Ok(t) => match spec_alias_values(t, reg, field, rn, target, pad) {
                        Err(e) => Err(e),
                        Ok(acc) => Ok(acc + pad + "}\n\n"@ + pad + "impl<'a> FieldDecode<'a> for "@ + rn + "<'a> {\n"@ + pad + "    fn decode(field: FieldView<'a>) -> Option<Self> {\n"@ + pad + "        Self::FromWords(field.object_words()?)\n"@ + pad + "    }\n"@ + pad + "}\n\n"@),
                    },
                }
            },
        },
    }
}

/// Writes the reader of an alias registered as `full`.
pub fn generate_alias_readonly(out: &mut String, reg: &Registry, message: &DescriptorProto, full: &str, pad: &str) -> (r: Result<(), String>)
    requires
        reg.wf(),
        message.fields@.len() >= 1,
    ensures
        emitted(r, final(out)@) == spec_alias_readonly(old(out)@, reg.model(), *message, full@, pad@),
{
    proof {
        reveal(spec_alias_readonly);
    }
    let rn: String = match find_rust_type(reg, full) {
        Some(x) => x,
        None => {
            return Err(String::from_str("missing alias rust name for ").concat(full));
        },
    };
    let target: AliasTarget = match alias_target(reg, full) {
        Some(t) => t,
        None => {
            return Err(String::from_str("missing alias target for ").concat(full));
        },
    };
    let field: &FieldDescriptorProto = &message.fields[0];
    let ghost start = out@;
    match target {
        AliasTarget::BoolArray => {
            out.append(pad);
            out.append("#[derive(Clone, Copy, Debug)]\n");
            out.append(pad);
            out.append("pub struct ");
            out.append(rn.as_str());
            out.append("<'a> {\n");
            out.append(pad);
            out.append("    view: ArrayView<'a>,\n");
            out.append(pad);
            out.append("}\n\n");
            out.append(pad);
            out.append("impl<'a> ");
            out.append(rn.as_str());
            out.append("<'a> {\n");
            out.append(pad);
            out.append("    pub fn FromWords(words: &'a [u32]) -> Option<Self> {\n");
            out.append(pad);
            out.append("        Some(Self { view: ArrayView::new(words)? })\n");
            out.append(pad);
            out.append("    }\n");
        },
        AliasTarget::Array => {
            out.append(pad);
            out.append("#[derive(Clone, Copy, Debug)]\n");
            out.append(pad);
            out.append("pub struct ");
            out.append(rn.as_str());
            out.append("<'a> {\n");
            out.append(pad);
            out.append("    view: ArrayView<'a>,\n");
            out.append(pad);
            out.append("}\n\n");
            out.append(pad);
            out.append("impl<'a> ");
            out.append(rn.as_str());
            out.append("<'a> {\n");
            out.append(pad);
            out.append("    pub fn FromWords(words: &'a [u32]) -> Option<Self> {\n");
            out.append(pad);
            out.append("        Some(Self { view: ArrayView::new(words)? })\n");
            out.append(pad);
            out.append("    }\n");
        },
        AliasTarget::MapEntries => {
            out.append(pad);
            out.append("#[derive(Clone, Copy, Debug)]\n");
            out.append(pad);
            out.append("pub struct ");
            out.append(rn.as_str());
            out.append("<'a> {\n");
            out.append(pad);
            out.append("    view: MapView<'a>,\n");
            out.append(pad);
            out.append("}\n\n");
            out.append(pad);
            out.append("impl<'a> ");
            out.append(rn.as_str());
            out.append("<'a> {\n");
            out.append(pad);
            out.append("    pub fn FromWords(words: &'a [u32]) -> Option<Self> {\n");
            out.append(pad);
            out.append("        Some(Self { view: MapView::new(words)? })\n");
            out.append(pad);
            out.append("    }\n");
        },
    }
    assert(out@ == spec_alias_head(start, rn@, target, pad@));
    let ghost head = out@;
    match target {
        AliasTarget::BoolArray => {
            out.append(pad);
            out.append("    fn DetectLen(words: &'a [u32]) -> Option<usize> {\n");
            out.append(pad);
            out.append("        ArrayView::detect_len(words)\n");
            out.append(pad);
            out.append("    }\n");
            out.append(pad);
            out.append("    pub fn Detect(words: &'a [u32]) -> Option<&'a [u32]> {\n");
            out.append(pad);
            out.append("        Some(words.get(..Self::DetectLen(words)?)?)\n");
            out.append(pad);
            out.append("    }\n");
        },
        AliasTarget::Array => {
            match write_alias_array_detect_len(out, reg, field, pad) {
                Ok(()) => {},
                Err(e) => {
                    return Err(e);
                },
            }
            out.append(pad);
            out.append("    pub fn Detect(words: &'a [u32]) -> Option<&'a [u32]> {\n");
            out.append(pad);
            out.append("        Some(words.get(..Self::DetectLen(words)?)?)\n");
            out.append(pad);
            out.append("    }\n");
        },
        AliasTarget::MapEntries => {
            match write_alias_map_detect_len(out, reg, field, pad) {
                Ok(()) => {},
                Err(e) => {
                    return Err(e);
                },
            }
            out.append(pad);
            out.append("    pub fn Detect(words: &'a [u32]) -> Option<&'a [u32]> {\n");
            out.append(pad);
            out.append("        Some(words.get(..Self::DetectLen(words)?)?)\n");
            out.append(pad);
            out.append("    }\n");
        },
    }
    assert(spec_alias_detect(head, reg.model(), *field, target, pad@) == Ok::<Seq<char>, Seq<char>>(out@));
    let ghost detected = out@;
    let label: i32 = field_label(field.label);
    let ty: i32 = field_type(field.type_code);
    let tr: &str = field.type_ref.as_str();
    match target {
        AliasTarget::Array => {
            match repeated_scalar_return(label, ty) {
                Some(rt) => {
                    let dt = match strip_option(rt.as_str()) {
                        Ok(x) => x,
                        Err(e) => {
                            return Err(e);
                        },
                    };
                    out.append(pad);
                    out.append("    pub fn values(self) -> ");
                    out.append(dt.as_str());
                    out.append(" {\n");
                    let ex = match repeated_scalar_expr(ty, field.name.as_str(), "self.view") {
                        Ok(x) => x,
                        Err(e) => {
                            return Err(e);
                        },
                    };
                    out.append(pad);
                    out.append("        ");
                    out.append(ex.as_str());
                    out.append(".expect(\"generated alias invariant violated: ");
                    out.append(rn.as_str());
                    out.append("\")\n");
                    out.append(pad);
                    out.append("    }\n");
                },
                None => {
                    match repeated_view_return(reg, label, ty, tr) {
                        Err(e) => {
                            return Err(e);
                        },
                        Ok(Some(rt)) => {
                            out.append(pad);
                            out.append("    pub fn values(self) -> ");
                            out.append(rt.as_str());
                            out.append(" {\n");
                            out.append(pad);
                            out.append("        ViewArray::new(self.view)\n");
                            out.append(pad);
                            out.append("    }\n");
                        },
                        Ok(None) => {},
                    }
                },
            }
        },
        AliasTarget::MapEntries => {
            let rt = match map_view_return(reg, tr) {
                Ok(x) => x,
                Err(e) => {
                    return Err(e);
                },
            };
            out.append(pad);
            out.append("    pub fn entries(self) -> ");
            out.append(rt.as_str());
            out.append(" {\n");
            out.append(pad);
            out.append("        ViewMap::new(self.view)\n");
            out.append(pad);
            out.append("    }\n");
        },
        AliasTarget::BoolArray => {},
    }
    assert(spec_alias_values(detected, reg.model(), *field, rn@, target, pad@) == Ok::<Seq<char>, Seq<char>>(out@));
    out.append(pad);
    out.append("}\n\n");
    out.append(pad);
    out.append("impl<'a> FieldDecode<'a> for ");
    out.append(rn.as_str());
    out.append("<'a> {\n");
    out.append(pad);
    out.append("    fn decode(field: FieldView<'a>) -> Option<Self> {\n");
    out.append(pad);
    out.append("        Self::FromWords(field.object_words()?)\n");
    out.append(pad);
    out.append("    }\n");
    out.append(pad);
    out.append("}\n\n");
    Ok(())
}

/// The mutable type of an alias registered as `full`.
pub open spec fn spec_alias_extra(acc: Seq<char>, reg: RegistryModel, message: DescriptorProto, full: Seq<char>, pad: Seq<char>) -> Result<Seq<char>, Seq<char>> {
    match reg.rust_type_of(full) {
        None => Err("missing alias rust name for "@ + full),
        Some(rn) => {
            let field = message.fields@[0];
            match spec_alias_mutable_type(reg, label_of(field.label), type_of(field.type_code), field.type_ref@) {
                Err(e) => Err(e),
                Ok(mt) => Ok(acc + pad + "pub type "@ + rn + "Mutable<'a> = "@ + mt + ";\n\n"@),
            }
        },
    }
}

/// Writes the mutable type of an alias registered as `full`.
pub fn generate_alias_extra(out: &mut String, reg: &Registry, message: &DescriptorProto, full: &str, pad: &str) -> (r: Result<(), String>)
    requires
        reg.wf(),
        message.fields@.len() >= 1,
    ensures
        emitted(r, final(out)@) == spec_alias_extra(old(out)@, reg.model(), *message, full@, pad@),
{
    let rn: String = match find_rust_type(reg, full) {
        Some(x) => x,
        None => {
            return Err(String::from_str("missing alias rust name for ").concat(full));
        },
    };
    let field: &FieldDescriptorProto = &message.fields[0];
    let mt = match alias_mutable_type(reg, field_label(field.label), field_type(field.type_code), field.type_ref.as_str()) {
        Ok(x) => x,
        Err(e) => {
            return Err(e);
        },
    };
    out.append(pad);
    out.append("pub type ");
    out.append(rn.as_str());
    out.append("Mutable<'a> = ");
    out.append(mt.as_str());
    out.append(";\n\n");
    Ok(())
}

/// The field id constant of one field.
pub open spec fn spec_const_line(acc: Seq<char>, field: FieldDescriptorProto, pad: Seq<char>) -> Seq<char> {
    acc + pad + "    pub const "@ + upper(field.name@) + "_FIELD_ID: usize = "@ + spec_signed((field.number - 1) as int) + ";\n"@
}

/// The field id constants of the first `k` fields of `order`.
pub open spec fn spec_consts(acc: Seq<char>, fields: Seq<FieldDescriptorProto>, order: Seq<usize>, k: int, pad: Seq<char>) -> Seq<char>
    decreases k,
{
    if k <= 0 {
        acc
    } else {
        spec_const_line(spec_consts(acc, fields, order, k - 1, pad), fields[order[k - 1] as int], pad)
    }
}

/// The getters of the first `k` fields of `order`.
pub open spec fn spec_getters(acc: Seq<char>, reg: RegistryModel, fields: Seq<FieldDescriptorProto>, order: Seq<usize>, k: int, pad: Seq<char>) -> Result<Seq<char>, Seq<char>>
    decreases k,
{
    if k <= 0 {
        Ok(acc)
    } else {
        match spec_getters(acc, reg, fields, order, k - 1, pad) {
            Err(e) => Err(e),
            Ok(t) => spec_getter(t, reg, fields[order[k - 1] as int], pad),
        }
    }
}

proof fn lemma_getters_err(acc: Seq<char>, reg: RegistryModel, fields: Seq<FieldDescriptorProto>, order: Seq<usize>, k: int, m: int, pad: Seq<char>)
    requires
        0 <= k <= m,
        spec_getters(acc, reg, fields, order, k, pad) is Err,
    ensures
        spec_getters(acc, reg, fields, order, m, pad) == spec_getters(acc, reg, fields, order, k, pad),
    decreases m - k,
{
    if m > k {
        lemma_getters_err(acc, reg, fields, order, k, m - 1, pad);
    }
}

/// The end of a reader of a message: its decoding.
pub open spec fn finish_regular(r: Result<Seq<char>, Seq<char>>, rn: Seq<char>, pad: Seq<char>) -> Result<Seq<char>, Seq<char>> {
    match r {
        Err(e) => Err(e),
        Ok(acc) => Ok(acc + pad + "}\n\n"@ + pad + "impl<'a> FieldDecode<'a> for "@ + rn + "<'a> {\n"@ + pad + "    fn decode(field: FieldView<'a>) -> Option<Self> {\n"@ + pad + "        Some(Self { view: field.message()? })\n"@ + pad + "    }\n"@ + pad + "}\n\n"@),
    }
}

/// The reader of a message registered as `full`: its struct, its extent,
/// its field id constants and its getters, by field number.
#[verifier::opaque]
pub open spec fn spec_regular(acc: Seq<char>, reg: RegistryModel, message: DescriptorProto, full: Seq<char>, pad: Seq<char>) -> Result<Seq<char>, Seq<char>> {
    match reg.rust_type_of(full) {
        None => Err("missing rust name for "@ + full),
        Some(rn) => {
            let head = acc + pad + "#[derive(Clone, Copy, Debug)]\n"@ + pad + "pub struct "@ + rn + "<'a> {\n"@ + pad + "    view: MessageView<'a>,\n"@ + pad + "}\n\n"@ + pad + "impl<'a> "@ + rn + "<'a> {\n"@ + pad + "    pub fn FromWords(words: &'a [u32]) -> Option<Self> {\n"@ + pad + "        Some(Self { view: MessageView::new(words)? })\n"@ + pad + "    }\n"@;
            let order = live_order(message.fields@);
            finish_regular(match spec_message_detect_len(head, reg, message, pad) {
                Err(e) => Err(e),
                Ok(t) => {
                    let c0 = t + pad + "    pub fn Detect(words: &'a [u32]) -> Option<&'a [u32]> {\n"@ + pad + "        Some(words.get(..Self::DetectLen(words)?)?)\n"@ + pad + "    }\n"@ + pad + "    pub fn HasField(self, id: usize) -> bool { self.view.has_field(id) }\n\n"@;
                    let c1 = spec_consts(c0, message.fields@, order, order.len() as int, pad) + "\n"@;
                    spec_getters(c1, reg, message.fields@, order, order.len() as int, pad)
                },
            }, rn, pad)
        },
    }
}

/// Writes the reader of a message registered as `full`.
pub fn generate_regular_message(out: &mut String, reg: &Registry, message: &DescriptorProto, full: &str, pad: &str) -> (r: Result<(), String>)
    requires
        reg.wf(),
        numbers_ok(message.fields@),
    ensures
        emitted(r, final(out)@) == spec_regular(old(out)@, reg.model(), *message, full@, pad@),
{
    proof {
        reveal(spec_regular);
    }
    let rn: String = match find_rust_type(reg, full) {
        Some(x) => x,
        None => {
            return Err(String::from_str("missing rust name for ").concat(full));
        },
    };
    out.append(pad);
    out.append("#[derive(Clone, Copy, Debug)]\n");
    out.append(pad);
    out.append("pub struct ");
    out.append(rn.as_str());
    out.append("<'a> {\n");
    out.append(pad);
    out.append("    view: MessageView<'a>,\n");
    out.append(pad);
    out.append("}\n\n");
    out.append(pad);
    out.append("impl<'a> ");
    out.append(rn.as_str());
    out.append("<'a> {\n");
    out.append(pad);
    out.append("    pub fn FromWords(words: &'a [u32]) -> Option<Self> {\n");
    out.append(pad);
    out.append("        Some(Self { view: MessageView::new(words)? })\n");
    out.append(pad);
    out.append("    }\n");
    match write_message_detect_len(out, reg, message, pad) {
        Ok(()) => {},
        Err(e) => {
            return Err(e);
        },
    }
    out.append(pad);
    out.append("    pub fn Detect(words: &'a [u32]) -> Option<&'a [u32]> {\n");
    out.append(pad);
    out.append("        Some(words.get(..Self::DetectLen(words)?)?)\n");
    out.append(pad);
    out.append("    }\n");
    out.append(pad);
    out.append("    pub fn HasField(self, id: usize) -> bool { self.view.has_field(id) }\n\n");
    let ghost c0 = out@;
    let order: Vec<usize> = live_fields_by_number(&message.fields);
    let n: usize = order.len();
    let mut k: usize = 0;
    while k < n
        invariant
            k <= n,
            n == order@.len(),
            forall|i: int| 0 <= i < order@.len() ==> order@[i] < message.fields@.len(),
            out@ == spec_consts(c0, message.fields@, order@, k as int, pad@),
            numbers_ok(message.fields@),
        decreases n - k,
    {
        let field: &FieldDescriptorProto = &message.fields[order[k]];
        assert(field.number > i32::MIN);
        out.append(pad);
        out.append("    pub const ");
        append_upper(out, field.name.as_str());
        out.append("_FIELD_ID: usize = ");
        append_signed(out, (field.number - 1) as i64);
        out.append(";\n");
        k += 1;
    }
    out.append("\n");
    let ghost c1 = out@;
    assert(spec_regular(old(out)@, reg.model(), *message, full@, pad@) == finish_regular(spec_getters(c1, reg.model(), message.fields@, order@, n as int, pad@), rn@, pad@));
    let mut k: usize = 0;
    while k < n
        invariant
            k <= n,
            n == order@.len(),
            forall|i: int| 0 <= i < order@.len() ==> order@[i] < message.fields@.len(),
            reg.wf(),
            spec_getters(c1, reg.model(), message.fields@, order@, k as int, pad@) == Ok::<Seq<char>, Seq<char>>(out@),
            spec_regular(old(out)@, reg.model(), *message, full@, pad@) == finish_regular(spec_getters(c1, reg.model(), message.fields@, order@, n as int, pad@), rn@, pad@),
        decreases n - k,
    {
        let field: &FieldDescriptorProto = &message.fields[order[k]];
        match generate_getter(out, reg, field, pad) {
            Ok(()) => {},
            Err(e) => {
                proof {
                    lemma_getters_err(c1, reg.model(), message.fields@, order@, (k + 1) as int, n as int, pad@);
                }
                return Err(e);
            },
        }
        k += 1;
    }
    out.append(pad);
    out.append("}\n\n");
    out.append(pad);
    out.append("impl<'a> FieldDecode<'a> for ");
    out.append(rn.as_str());
    out.append("<'a> {\n");
    out.append(pad);
    out.append("    fn decode(field: FieldView<'a>) -> Option<Self> {\n");
    out.append(pad);
    out.append("        Some(Self { view: field.message()? })\n");
    out.append(pad);
    out.append("    }\n");
    out.append(pad);
    out.append("}\n\n");
    Ok(())
}

/// The struct field of one field of a mutable message.
pub open spec fn spec_struct_field(acc: Seq<char>, reg: RegistryModel, field: FieldDescriptorProto, pad: Seq<char>) -> Result<Seq<char>, Seq<char>> {
    match spec_mutable_field_type(reg, label_of(field.label), type_of(field.type_code), field.type_ref@) {
        Err(e) => Err(e),
        Ok(ft) => Ok(acc + pad + "    _"@ + field.name@ + ": "@ + ft + ",\n"@),
    }
}

/// The struct fields of the first `k` fields of `order`.
pub open spec fn spec_struct_fields(acc: Seq<char>, reg: RegistryModel, fields: Seq<FieldDescriptorProto>, order: Seq<usize>, k: int, pad: Seq<char>) -> Result<Seq<char>, Seq<char>>
    decreases k,
{
    if k <= 0 {
        Ok(acc)
    } else {
        match spec_struct_fields(acc, reg, fields, order, k - 1, pad) {
            Err(e) => Err(e),
            Ok(t) => spec_struct_field(t, reg, fields[order[k - 1] as int], pad),
        }
    }
}

proof fn lemma_struct_fields_err(acc: Seq<char>, reg: RegistryModel, fields: Seq<FieldDescriptorProto>, order: Seq<usize>, k: int, m: int, pad: Seq<char>)
    requires
        0 <= k <= m,
        spec_struct_fields(acc, reg, fields, order, k, pad) is Err,
    ensures
        spec_struct_fields(acc, reg, fields, order, m, pad) == spec_struct_fields(acc, reg, fields, order, k, pad),
    decreases m - k,
{
    if m > k {
        lemma_struct_fields_err(acc, reg, fields, order, k, m - 1, pad);
    }
}

/// The encoding lines of the last `k` fields of `order`, the last first,
/// each by the id constant of the reader named `ro`.
pub open spec fn spec_serialize_fields(acc: Seq<char>, fields: Seq<FieldDescriptorProto>, order: Seq<usize>, k: int, pad: Seq<char>, ro: Seq<char>) -> Seq<char>
    decreases k,
{
    if k <= 0 {
        acc
    } else {
        let t = spec_serialize_fields(acc, fields, order, k - 1, pad, ro);
        let field = fields[order[order.len() - k] as int];
        t + pad + "        self.__view__.serialize_field("@ + ro + "::"@ + upper(field.name@) + "_FIELD_ID, &self._"@ + field.name@ + ", buffer, &mut parts["@ + ro + "::"@ + upper(field.name@) + "_FIELD_ID])?;\n"@
    }
}

/// The getters of the first `k` fields of `order` in a mutable message.
pub open spec fn spec_mutable_getters(acc: Seq<char>, reg: RegistryModel, fields: Seq<FieldDescriptorProto>, order: Seq<usize>, k: int, pad: Seq<char>, ro: Seq<char>) -> Result<Seq<char>, Seq<char>>
    decreases k,
{
    if k <= 0 {
        Ok(acc)
    } else {
        match spec_mutable_getters(acc, reg, fields, order, k - 1, pad, ro) {
            Err(e) => Err(e),
            Ok(t) => spec_mutable_getter(t, reg, fields[order[k - 1] as int], pad, ro),
        }
    }
}

proof fn lemma_mutable_getters_err(acc: Seq<char>, reg: RegistryModel, fields: Seq<FieldDescriptorProto>, order: Seq<usize>, k: int, m: int, pad: Seq<char>, ro: Seq<char>)
    requires
        0 <= k <= m,
        spec_mutable_getters(acc, reg, fields, order, k, pad, ro) is Err,
    ensures
        spec_mutable_getters(acc, reg, fields, order, m, pad, ro) == spec_mutable_getters(acc, reg, fields, order, k, pad, ro),
    decreases m - k,
{
    if m > k {
        lemma_mutable_getters_err(acc, reg, fields, order, k, m - 1, pad, ro);
    }
}

/// The end of a mutable message: its field trait, dirty when any field
/// was reached, and its array element trait.
pub open spec fn mutable_finish(r: Result<Seq<char>, Seq<char>>, order: Seq<usize>, rn: Seq<char>, full: Seq<char>, pad: Seq<char>) -> Result<Seq<char>, Seq<char>> {
    match r {
        Err(e) => Err(e),
        Ok(t) => {
            let u = t + pad + "}\n\n"@ + pad + "impl<'a> MutableField<'a> for "@ + rn + "Mutable<'a> {\n"@ + pad + "    fn decode(field: FieldView<'a>) -> Option<Self> {\n"@ + pad + "        Self::FromWords(field.object_words()?)\n"@ + pad + "    }\n"@ + pad + "    fn detect<'b>(field: FieldView<'b>) -> Option<&'b [u32]> {\n"@ + pad + "        "@ + rn + "::Detect(field.object_words()?)\n"@ + pad + "    }\n"@ + pad + "    fn encode(&self, buffer: &mut Buffer) -> Result<Unit, MutableError> {\n"@ + pad + "        self.EncodeToUnit(buffer)\n"@ + pad + "    }\n"@;
            if order.len() == 0 {
                Ok(u + pad + "    fn is_dirty(&self) -> bool { false }\n"@ + pad + "}\n\n"@ + pad + "impl<'a> MutableArrayElement<'a> for "@ + rn + "Mutable<'a> {\n"@ + pad + "    fn decode_array(words: &'a [u32]) -> Option<Vec<Self>> {\n"@ + pad + "        let array = ArrayView::new(words)?;\n"@ + pad + "        let mut values = Vec::with_capacity(array.len());\n"@ + pad + "        for item in array.iter() { values.push(Self::FromWords(item.object_words()?)?); }\n"@ + pad + "        Some(values)\n"@ + pad + "    }\n"@ + pad + "    fn encode_array(values: &[Self], buffer: &mut Buffer) -> Result<Unit, MutableError> {\n"@ + pad + "        if values.is_empty() { return Ok(Unit::inline(&[1])); }\n"@ + pad + "        let last = buffer.len();\n"@ + pad + "        let mut units = vec![Unit::empty(); values.len()];\n"@ + pad + "        for i in (0..values.len()).rev() { units[i] = values[i].encode(buffer)?; }\n"@ + pad + "        protocache_core::serialize_array_at_mut(&mut units, buffer, last).ok_or_else(|| MutableError::SerializeFailed {\n"@ + pad + "            descriptor: \""@ + full + "\".to_owned(),\n"@ + pad + "            field: \"<array>\".to_owned(),\n"@ + pad + "        })\n"@ + pad + "    }\n"@ + pad + "}\n\n"@)
            } else {
                Ok(u + pad + "    fn is_dirty(&self) -> bool { self.__view__.has_any_accessed() }\n"@ + pad + "}\n\n"@ + pad + "impl<'a> MutableArrayElement<'a> for "@ + rn + "Mutable<'a> {\n"@ + pad + "    fn decode_array(words: &'a [u32]) -> Option<Vec<Self>> {\n"@ + pad + "        let array = ArrayView::new(words)?;\n"@ + pad + "        let mut values = Vec::with_capacity(array.len());\n"@ + pad + "        for item in array.iter() { values.push(Self::FromWords(item.object_words()?)?); }\n"@ + pad + "        Some(values)\n"@ + pad + "    }\n"@ + pad + "    fn encode_array(values: &[Self], buffer: &mut Buffer) -> Result<Unit, MutableError> {\n"@ + pad + "        if values.is_empty() { return Ok(Unit::inline(&[1])); }\n"@ + pad + "        let last = buffer.len();\n"@ + pad + "        let mut units = vec![Unit::empty(); values.len()];\n"@ + pad + "        for i in (0..values.len()).rev() { units[i] = values[i].encode(buffer)?; }\n"@ + pad + "        protocache_core::serialize_array_at_mut(&mut units, buffer, last).ok_or_else(|| MutableError::SerializeFailed {\n"@ + pad + "            descriptor: \""@ + full + "\".to_owned(),\n"@ + pad + "            field: \"<array>\".to_owned(),\n"@ + pad + "        })\n"@ + pad + "    }\n"@ + pad + "}\n\n"@)
            }
        },
    }
}

/// A mutable message after its struct fields: its constructors, its
/// encoder and its getters.
pub open spec fn mutable_rest(r: Result<Seq<char>, Seq<char>>, reg: RegistryModel, message: DescriptorProto, full: Seq<char>, rn: Seq<char>, pad: Seq<char>) -> Result<Seq<char>, Seq<char>> {
    match r {
        Err(e) => Err(e),
        Ok(t) => {
            let order = live_order(message.fields@);
            let n = order.len() as int;
            let mx = spec_max_number(message.fields@, order);
            let ro = rn;
            let c = t + pad + "}\n\n"@ + pad + "impl<'a> "@ + rn + "Mutable<'a> {\n"@ + pad + "    pub fn New() -> Self { Self::default() }\n"@ + pad + "    pub fn FromWords(words: &'a [u32]) -> Option<Self> {\n"@ + pad + "        Some(Self { __view__: MutableMessage::from_words(words)?, ..Self::default() })\n"@ + pad + "    }\n"@ + pad + "    pub fn HasField(&self, id: usize) -> bool { self.__view__.has_field(id) }\n"@ + pad + "    fn EncodeToUnit(&self, buffer: &mut Buffer) -> Result<Unit, MutableError> {\n"@ + pad + "        if let Some(words) = self.__view__.clean_words() {\n"@ + pad + "            return Ok(protocache_core::mutable::copy_words(words, buffer, false));\n"@ + pad + "        }\n"@ + pad + "        let last = buffer.len();\n"@ + pad + "        let mut parts = [Unit::empty(); "@ + spec_signed((mx) as int) + "];\n"@;
            let s = spec_serialize_fields(c, message.fields@, order, n, pad, rn) + pad + "        serialize_message_at(&mut parts, buffer, last).ok_or_else(|| MutableError::SerializeFailed {\n"@ + pad + "            descriptor: \""@ + full + "\".to_owned(),\n"@ + pad + "            field: \"<message>\".to_owned(),\n"@ + pad + "        })\n"@ + pad + "    }\n"@ + pad + "    pub fn SerializeWords(&self) -> Result<Vec<u32>, MutableError> {\n"@ + pad + "        let mut buffer = Buffer::new();\n"@ + pad + "        let _ = self.SerializeIntoBuffer(&mut buffer)?;\n"@ + pad + "        Ok(buffer.view().to_vec())\n"@ + pad + "    }\n"@ + pad + "    pub fn SerializeIntoBuffer<'b>(&self, buffer: &'b mut Buffer) -> Result<&'b [u32], MutableError> {\n"@ + pad + "        buffer.clear();\n"@ + pad + "        let _ = self.EncodeToUnit(buffer)?;\n"@ + pad + "        Ok(buffer.view())\n"@ + pad + "    }\n"@;
            mutable_finish(spec_mutable_getters(s, reg, message.fields@, order, n, pad, rn), order, rn, full, pad)
        },
    }
}

/// The mutable message of a message registered as `full`.
#[verifier::opaque]
pub open spec fn spec_mutable(acc: Seq<char>, reg: RegistryModel, message: DescriptorProto, full: Seq<char>, pad: Seq<char>) -> Result<Seq<char>, Seq<char>> {
    match reg.rust_type_of(full) {
        None => Err("missing rust name for "@ + full),
        Some(rn) => {
            let order = live_order(message.fields@);
            let mx = spec_max_number(message.fields@, order);
            let aw = spec_accessed_words(mx);
            let s0 = acc + pad + "#[derive(Clone, Debug, Default)]\n"@ + pad + "pub struct "@ + rn + "Mutable<'a> {\n"@ + pad + "    __view__: MutableMessage<'a, "@ + spec_signed((mx) as int) + ", "@ + spec_signed((aw) as int) + ">,\n"@;
            mutable_rest(spec_struct_fields(s0, reg, message.fields@, order, order.len() as int, pad), reg, message, full, rn, pad)
        },
    }
}

/// Writes the struct fields of a mutable message.
fn write_struct_fields(out: &mut String, reg: &Registry, fields: &Vec<FieldDescriptorProto>, order: &Vec<usize>, pad: &str) -> (r: Result<(), String>)
    requires
        reg.wf(),
        forall|i: int| 0 <= i < order@.len() ==> order@[i] < fields@.len(),
    ensures
        emitted(r, final(out)@) == spec_struct_fields(old(out)@, reg.model(), fields@, order@, order@.len() as int, pad@),
{
    let n: usize = order.len();
    let mut k: usize = 0;
    while k < n
        invariant
            k <= n,
            n == order@.len(),
            forall|i: int| 0 <= i < order@.len() ==> order@[i] < fields@.len(),
            reg.wf(),
            spec_struct_fields(old(out)@, reg.model(), fields@, order@, k as int, pad@) == Ok::<Seq<char>, Seq<char>>(out@),
        decreases n - k,
    {
        let field: &FieldDescriptorProto = &fields[order[k]];
        let ft = match mutable_field_type(reg, field_label(field.label), field_type(field.type_code), field.type_ref.as_str()) {
            Ok(x) => x,
            Err(e) => {
                proof {
                    assert(spec_struct_fields(old(out)@, reg.model(), fields@, order@, (k + 1) as int, pad@) == Err::<Seq<char>, Seq<char>>(e@));
                    lemma_struct_fields_err(old(out)@, reg.model(), fields@, order@, (k + 1) as int, n as int, pad@);
                }
                return Err(e);
            },
        };
        out.append(pad);
        out.append("    _");
        out.append(field.name.as_str());
        out.append(": ");
        out.append(ft.as_str());
        out.append(",\n");
        k += 1;
    }
    Ok(())
}

/// Writes the encoding lines of the fields of a mutable message, the last first.
fn write_serialize_fields(out: &mut String, fields: &Vec<FieldDescriptorProto>, order: &Vec<usize>, pad: &str, ro: &str)
    requires
        forall|i: int| 0 <= i < order@.len() ==> order@[i] < fields@.len(),
    ensures
        final(out)@ == spec_serialize_fields(old(out)@, fields@, order@, order@.len() as int, pad@, ro@),
{
    let ghost c1 = out@;
    let n: usize = order.len();
    let mut k: usize = 0;
    while k < n
        invariant
            k <= n,
            n == order@.len(),
            forall|i: int| 0 <= i < order@.len() ==> order@[i] < fields@.len(),
            out@ == spec_serialize_fields(c1, fields@, order@, k as int, pad@, ro@),
        decreases n - k,
    {
        let field: &FieldDescriptorProto = &fields[order[n - 1 - k]];
        out.append(pad);
        out.append("        self.__view__.serialize_field(");
        out.append(ro);
        out.append("::");
        append_upper(out, field.name.as_str());
        out.append("_FIELD_ID, &self._");
        out.append(field.name.as_str());
        out.append(", buffer, &mut parts[");
        out.append(ro);
        out.append("::");
        append_upper(out, field.name.as_str());
        out.append("_FIELD_ID])?;\n");
        k += 1;
    }
}

/// Writes the getters of a mutable message.
fn write_mutable_getters(out: &mut String, reg: &Registry, fields: &Vec<FieldDescriptorProto>, order: &Vec<usize>, pad: &str, ro: &str) -> (r: Result<(), String>)
    requires
        reg.wf(),
        forall|i: int| 0 <= i < order@.len() ==> order@[i] < fields@.len(),
    ensures
        emitted(r, final(out)@) == spec_mutable_getters(old(out)@, reg.model(), fields@, order@, order@.len() as int, pad@, ro@),
{
    let n: usize = order.len();
    let mut k: usize = 0;
    while k < n
        invariant
            k <= n,
            n == order@.len(),
            forall|i: int| 0 <= i < order@.len() ==> order@[i] < fields@.len(),
            reg.wf(),
            spec_mutable_getters(old(out)@, reg.model(), fields@, order@, k as int, pad@, ro@) == Ok::<Seq<char>, Seq<char>>(out@),
        decreases n - k,
    {
        let field: &FieldDescriptorProto = &fields[order[k]];
        let ghost before = out@;
        match generate_mutable_getter(out, reg, field, pad, ro) {
            Ok(()) => {},
            Err(e) => {
                proof {
                    assert(spec_mutable_getter(before, reg.model(), *field, pad@, ro@) == Err::<Seq<char>, Seq<char>>(e@));
                    assert(spec_mutable_getters(old(out)@, reg.model(), fields@, order@, (k + 1) as int, pad@, ro@) == Err::<Seq<char>, Seq<char>>(e@));
                    lemma_mutable_getters_err(old(out)@, reg.model(), fields@, order@, (k + 1) as int, n as int, pad@, ro@);
                }
                return Err(e);
            },
        }
        k += 1;
    }
    Ok(())
}

/// Writes the mutable message of a message registered as `full`.
#[verifier::rlimit(80)]
#[verifier::spinoff_prover]
pub fn generate_mutable_message(out: &mut String, reg: &Registry, message: &DescriptorProto, full: &str, pad: &str) -> (r: Result<(), String>)
    requires
        reg.wf(),
        numbers_ok(message.fields@),
        spec_max_number(message.fields@, live_order(message.fields@)) <= i32::MAX - 63,
    ensures
        emitted(r, final(out)@) == spec_mutable(old(out)@, reg.model(), *message, full@, pad@),
{
    proof {
        reveal(spec_mutable);
    }
    let rn: String = match find_rust_type(reg, full) {
        Some(x) => x,
        None => {
            return Err(String::from_str("missing rust name for ").concat(full));
        },
    };
    let order: Vec<usize> = live_fields_by_number(&message.fields);
    let n: usize = order.len();
    let mx: i32 = if n == 0 {
        0
    } else {
        message.fields[order[n - 1]].number
    };
    assert(mx == spec_max_number(message.fields@, order@));
    let x: i32 = mx + 63;
    let aw: i32 = if x >= 0 {
        x / 64
    } else {
        -((-x) / 64)
    };
    assert(aw == spec_accessed_words(mx));
    out.append(pad);
    out.append("#[derive(Clone, Debug, Default)]\n");
    out.append(pad);
    out.append("pub struct ");
    out.append(rn.as_str());
    out.append("Mutable<'a> {\n");
    out.append(pad);
    out.append("    __view__: MutableMessage<'a, ");
    append_signed(out, mx as i64);
    out.append(", ");
    append_signed(out, aw as i64);
    out.append(">,\n");
    match write_struct_fields(out, reg, &message.fields, &order, pad) {
        Ok(()) => {},
        Err(e) => {
            return Err(e);
        },
    }
    out.append(pad);
    out.append("}\n\n");
    out.append(pad);
    out.append("impl<'a> ");
    out.append(rn.as_str());
    out.append("Mutable<'a> {\n");
    out.append(pad);
    out.append("    pub fn New() -> Self { Self::default() }\n");
    out.append(pad);
    out.append("    pub fn FromWords(words: &'a [u32]) -> Option<Self> {\n");
    out.append(pad);
    out.append("        Some(Self { __view__: MutableMessage::from_words(words)?, ..Self::default() })\n");
    out.append(pad);
    out.append("    }\n");
    out.append(pad);
    out.append("    pub fn HasField(&self, id: usize) -> bool { self.__view__.has_field(id) }\n");
    out.append(pad);
    out.append("    fn EncodeToUnit(&self, buffer: &mut Buffer) -> Result<Unit, MutableError> {\n");
    out.append(pad);
    out.append("        if let Some(words) = self.__view__.clean_words() {\n");
    out.append(pad);
    out.append("            return Ok(protocache_core::mutable::copy_words(words, buffer, false));\n");
    out.append(pad);
    out.append("        }\n");
    out.append(pad);
    out.append("        let last = buffer.len();\n");
    out.append(pad);
    out.append("        let mut parts = [Unit::empty(); ");
    append_signed(out, mx as i64);
    out.append("];\n");
    write_serialize_fields(out, &message.fields, &order, pad, rn.as_str());
    out.append(pad);
    out.append("        serialize_message_at(&mut parts, buffer, last).ok_or_else(|| MutableError::SerializeFailed {\n");
    out.append(pad);
    out.append("            descriptor: \"");
    out.append(full);
    out.append("\".to_owned(),\n");
    out.append(pad);
    out.append("            field: \"<message>\".to_owned(),\n");
    out.append(pad);
    out.append("        })\n");
    out.append(pad);
    out.append("    }\n");
    out.append(pad);
    out.append("    pub fn SerializeWords(&self) -> Result<Vec<u32>, MutableError> {\n");
    out.append(pad);
    out.append("        let mut buffer = Buffer::new();\n");
    out.append(pad);
    out.append("        let _ = self.SerializeIntoBuffer(&mut buffer)?;\n");
    out.append(pad);
    out.append("        Ok(buffer.view().to_vec())\n");
    out.append(pad);
    out.append("    }\n");
    out.append(pad);
    out.append("    pub fn SerializeIntoBuffer<'b>(&self, buffer: &'b mut Buffer) -> Result<&'b [u32], MutableError> {\n");
    out.append(pad);
    out.append("        buffer.clear();\n");
    out.append(pad);
    out.append("        let _ = self.EncodeToUnit(buffer)?;\n");
    out.append(pad);
    out.append("        Ok(buffer.view())\n");
    out.append(pad);
    out.append("    }\n");
    match write_mutable_getters(out, reg, &message.fields, &order, pad, rn.as_str()) {
        Ok(()) => {},
        Err(e) => {
            return Err(e);
        },
    }
    out.append(pad);
    out.append("}\n\n");
    out.append(pad);
    out.append("impl<'a> MutableField<'a> for ");
    out.append(rn.as_str());
    out.append("Mutable<'a> {\n");
    out.append(pad);
    out.append("    fn decode(field: FieldView<'a>) -> Option<Self> {\n");
    out.append(pad);
    out.append("        Self::FromWords(field.object_words()?)\n");
    out.append(pad);
    out.append("    }\n");
    out.append(pad);
    out.append("    fn detect<'b>(field: FieldView<'b>) -> Option<&'b [u32]> {\n");
    out.append(pad);
    out.append("        ");
    out.append(rn.as_str());
    out.append("::Detect(field.object_words()?)\n");
    out.append(pad);
    out.append("    }\n");
    out.append(pad);
    out.append("    fn encode(&self, buffer: &mut Buffer) -> Result<Unit, MutableError> {\n");
    out.append(pad);
    out.append("        self.EncodeToUnit(buffer)\n");
    out.append(pad);
    out.append("    }\n");
    if n == 0 {
        out.append(pad);
        out.append("    fn is_dirty(&self) -> bool { false }\n");
    } else {
        out.append(pad);
        out.append("    fn is_dirty(&self) -> bool { self.__view__.has_any_accessed() }\n");
    }
    out.append(pad);
    out.append("}\n\n");
    out.append(pad);
    out.append("impl<'a> MutableArrayElement<'a> for ");
    out.append(rn.as_str());
    out.append("Mutable<'a> {\n");
    out.append(pad);
    out.append("    fn decode_array(words: &'a [u32]) -> Option<Vec<Self>> {\n");
    out.append(pad);
    out.append("        let array = ArrayView::new(words)?;\n");
    out.append(pad);
    out.append("        let mut values = Vec::with_capacity(array.len());\n");
    out.append(pad);
    out.append("        for item in array.iter() { values.push(Self::FromWords(item.object_words()?)?); }\n");
    out.append(pad);
    out.append("        Some(values)\n");
    out.append(pad);
    out.append("    }\n");
    out.append(pad);
    out.append("    fn encode_array(values: &[Self], buffer: &mut Buffer) -> Result<Unit, MutableError> {\n");
    out.append(pad);
    out.append("        if values.is_empty() { return Ok(Unit::inline(&[1])); }\n");
    out.append(pad);
    out.append("        let last = buffer.len();\n");
    out.append(pad);
    out.append("        let mut units = vec![Unit::empty(); values.len()];\n");
    out.append(pad);
    out.append("        for i in (0..values.len()).rev() { units[i] = values[i].encode(buffer)?; }\n");
    out.append(pad);
    out.append("        protocache_core::serialize_array_at_mut(&mut units, buffer, last).ok_or_else(|| MutableError::SerializeFailed {\n");
    out.append(pad);
    out.append("            descriptor: \"");
    out.append(full);
    out.append("\".to_owned(),\n");
    out.append(pad);
    out.append("            field: \"<array>\".to_owned(),\n");
    out.append(pad);
    out.append("        })\n");
    out.append(pad);
    out.append("    }\n");
    out.append(pad);
    out.append("}\n\n");
    Ok(())
}

/// Which of the two files of a schema file is written: the readers, or the
/// mutable messages.
#[derive(Clone, Copy, Debug, PartialEq, Eq, Structural)]
pub enum OutputKind {
    Readonly,
    Extra,
}

/// Whether the messages of a tree can have their code of the given kind
/// written: every field number is above the least `i32`, and for the
/// mutable messages, the largest live field number of a message that is no
/// alias leaves room for the words that mark accessed fields.
pub open spec fn plugin_ok(message: DescriptorProto, extra: bool) -> bool
    decreases message,
{
    &&& numbers_ok(message.fields@)
    &&& extra && !is_alias_msg(message) ==> spec_max_number(message.fields@, live_order(message.fields@)) <= i32::MAX - 63
    &&& forall|i: int| 0 <= i < message.nested_types@.len() ==> plugin_ok(#[trigger] message.nested_types@[i], extra)
}

/// What holds for the mutable messages holds for the readers.
pub proof fn lemma_plugin_ok_readonly(message: DescriptorProto)
    requires
        plugin_ok(message, true),
    ensures
        plugin_ok(message, false),
    decreases message,
{
    assert forall|i: int| 0 <= i < message.nested_types@.len() implies plugin_ok(#[trigger] message.nested_types@[i], false) by {
        lemma_plugin_ok_readonly(message.nested_types@[i]);
    }
}

/// The code of a message and of what it nests: for the readers its enums,
/// then its nested messages other than map entries, then its own reader or
/// mutable message.
pub open spec fn spec_gen_message(acc: Seq<char>, reg: RegistryModel, message: DescriptorProto, package: Seq<char>, parent: Option<Seq<char>>, pad: Seq<char>, kind: OutputKind) -> Result<Seq<char>, Seq<char>>
    decreases message, 1int, 0int,
{
    let full = full_of(parent, package, message.name@);
    let a1 = if kind == OutputKind::Readonly {
        spec_gen_enums(acc, message.enum_types@, message.enum_types@.len() as int, pad)
    } else {
        acc
    };
    finish_message(spec_gen_nested(a1, reg, message, package, full, message.nested_types@.len() as int, pad, kind), reg, message, full, pad, kind)
}

/// The own code of a message, after its nested code.
pub open spec fn finish_message(r: Result<Seq<char>, Seq<char>>, reg: RegistryModel, message: DescriptorProto, full: Seq<char>, pad: Seq<char>, kind: OutputKind) -> Result<Seq<char>, Seq<char>> {
    match r {
        Err(e) => Err(e),
        Ok(a2) => if kind == OutputKind::Readonly {
            if is_alias_msg(message) {
                spec_alias_readonly(a2, reg, message, full, pad)
            } else {
                spec_regular(a2, reg, message, full, pad)
            }
        } else {
            if is_alias_msg(message) {
                spec_alias_extra(a2, reg, message, full, pad)
            } else {
                spec_mutable(a2, reg, message, full, pad)
            }
        },
    }
}

/// The code of the first `i` messages nested in a message named `full`.
pub open spec fn spec_gen_nested(acc: Seq<char>, reg: RegistryModel, message: DescriptorProto, package: Seq<char>, full: Seq<char>, i: int, pad: Seq<char>, kind: OutputKind) -> Result<Seq<char>, Seq<char>>
    decreases message, 0int, i,
{
    if i <= 0 || i > message.nested_types@.len() {
        Ok(acc)
    } else {
        match spec_gen_nested(acc, reg, message, package, full, i - 1, pad, kind) {
            Err(e) => Err(e),
            Ok(t) => {
                let nested = message.nested_types@[i - 1];
                if nested.map_entry {
                    Ok(t)
                } else {
                    spec_gen_message(t, reg, nested, package, Some(full), pad, kind)
                }
            },
        }
    }
}

proof fn lemma_gen_nested_err(acc: Seq<char>, reg: RegistryModel, message: DescriptorProto, package: Seq<char>, full: Seq<char>, k: int, m: int, pad: Seq<char>, kind: OutputKind)
    requires
        0 <= k <= m <= message.nested_types@.len(),
        spec_gen_nested(acc, reg, message, package, full, k, pad, kind) is Err,
    ensures
        spec_gen_nested(acc, reg, message, package, full, m, pad, kind) == spec_gen_nested(acc, reg, message, package, full, k, pad, kind),
    decreases m - k,
{
    if m > k {
        lemma_gen_nested_err(acc, reg, message, package, full, k, m - 1, pad, kind);
    }
}

/// Writes the code of a message and of what it nests.
pub fn generate_message(out: &mut String, reg: &Registry, message: &DescriptorProto, package: &str, parent: Option<&str>, pad: &str, kind: OutputKind) -> (r: Result<(), String>)
    requires
        reg.wf(),
        plugin_ok(*message, kind == OutputKind::Extra),
    ensures
        emitted(r, final(out)@) == spec_gen_message(old(out)@, reg.model(), *message, package@, opt_view(parent), pad@, kind),
    decreases message,
{
    let full: String = match parent {
        Some(p) => String::from_str(p).concat(".").concat(message.name.as_str()),
        None => package_prefix(package).concat(".").concat(message.name.as_str()),
    };
    assert(full@ == full_of(opt_view(parent), package@, message.name@));
    if kind == OutputKind::Readonly {
        let mut i: usize = 0;
        while i < message.enum_types.len()
            invariant
                i <= message.enum_types@.len(),
                out@ == spec_gen_enums(old(out)@, message.enum_types@, i as int, pad@),
            decreases message.enum_types@.len() - i,
        {
            generate_enum(out, &message.enum_types[i], pad);
            i += 1;
        }
    }
    let ghost a1 = out@;
    let n: usize = message.nested_types.len();
    let mut j: usize = 0;
    while j < n
        invariant
            j <= n,
            n == message.nested_types@.len(),
            reg.wf(),
            plugin_ok(*message, kind == OutputKind::Extra),
            spec_gen_nested(a1, reg.model(), *message, package@, full@, j as int, pad@, kind) == Ok::<Seq<char>, Seq<char>>(out@),
            spec_gen_message(old(out)@, reg.model(), *message, package@, opt_view(parent), pad@, kind) == finish_message(spec_gen_nested(a1, reg.model(), *message, package@, full@, n as int, pad@, kind), reg.model(), *message, full@, pad@, kind),
        decreases n - j,
    {
        let nested: &DescriptorProto = &message.nested_types[j];
        assert(plugin_ok(message.nested_types@[j as int], kind == OutputKind::Extra));
        if !nested.map_entry {
            match generate_message(out, reg, nested, package, Some(full.as_str()), pad, kind) {
                Ok(()) => {},
                Err(e) => {
                    proof {
                        assert(spec_gen_nested(a1, reg.model(), *message, package@, full@, (j + 1) as int, pad@, kind) == Err::<Seq<char>, Seq<char>>(e@));
                        lemma_gen_nested_err(a1, reg.model(), *message, package@, full@, (j + 1) as int, n as int, pad@, kind);
                    }
                    return Err(e);
                },
            }
        }
        j += 1;
    }
    if kind == OutputKind::Readonly {
        if is_alias_message(message) {
            generate_alias_readonly(out, reg, message, full.as_str(), pad)
        } else {
            generate_regular_message(out, reg, message, full.as_str(), pad)
        }
    } else {
        if is_alias_message(message) {
            generate_alias_extra(out, reg, message, full.as_str(), pad)
        } else {
            generate_mutable_message(out, reg, message, full.as_str(), pad)
        }
    }
}

/// A package name with each `.` written as `::`.
pub open spec fn spec_colons(s: Seq<char>) -> Seq<char>
    decreases s.len(),
{
    if s.len() == 0 {
        Seq::empty()
    } else if s.last() == '.' {
        spec_colons(s.drop_last()) + "::"@
    } else {
        spec_colons(s.drop_last()).push(s.last())
    }
}

/// The path that imports every type of a package into the extra file.
pub open spec fn spec_base_types_import(package: Seq<char>) -> Seq<char> {
    if package.len() == 0 {
        "self::"@ + "*"@
    } else {
        "self::"@ + spec_colons(package) + "::*"@
    }
}

/// The path that imports every type of a package into the extra file.
pub fn base_types_import(package: &str) -> (r: String)
    ensures
        r@ == spec_base_types_import(package@),
{
    let mut path = String::from_str("self::");
    let n: usize = package.unicode_len();
    if n == 0 {
        path.append("*");
        return path;
    }
    let mut i: usize = 0;
    while i < n
        invariant
            i <= n,
            n == package@.len(),
            path@ == "self::"@ + spec_colons(package@.subrange(0, i as int)),
        decreases n - i,
    {
        let c: char = package.get_char(i);
        proof {
            assert(package@.subrange(0, i + 1).drop_last() == package@.subrange(0, i as int));
        }
        if c == '.' {
            path.append("::");
        } else {
            push_char(&mut path, c);
        }
        i += 1;
    }
    assert(package@.subrange(0, n as int) == package@);
    path.append("::*");
    path
}

/// The start of a file of the given kind: its header, for the readers the
/// modules of its package, and its imports.
pub open spec fn spec_file_head(package: Seq<char>, kind: OutputKind) -> Seq<char> {
    let h = "// @generated by protoc-gen-pcrs.\n"@;
    if kind == OutputKind::Readonly {
        if package.len() != 0 {
            let parts = split_dot(package);
            mods_open(h, parts, parts.len() as int) + "\n"@ + spec_pad(file_depth(package)) + "use protocache_core::{ArrayView, BoolArray, EnumValue, FieldDecode, FieldView, MapView, MessageView, ScalarArray, StringView, ViewArray, ViewMap};\n\n"@
        } else {
            h + "use protocache_core::{ArrayView, BoolArray, EnumValue, FieldDecode, FieldView, MapView, MessageView, ScalarArray, StringView, ViewArray, ViewMap};\n\n"@
        }
    } else {
        let h2 = h + "// Requires the corresponding .pc.rs file to be included first.\n"@;
        let h3 = if package.len() != 0 {
            h2 + "use "@ + spec_base_types_import(package) + ";\n\n"@
        } else {
            h2
        };
        h3 + "use protocache_core::{ArrayView, Buffer, EnumValue, FieldView, MutableError, Unit, serialize_message_at};\n"@ + "use protocache_core::mutable::{MutableArray, MutableArrayElement, MutableField, MutableMap, MutableMessage};\n\n"@
    }
}

/// The indentation of a file of the given kind: one level per part of the
/// package for the readers, none for the mutable messages.
pub open spec fn kind_pad(package: Seq<char>, kind: OutputKind) -> Seq<char> {
    if kind == OutputKind::Readonly {
        spec_pad(file_depth(package))
    } else {
        spec_pad(0)
    }
}

/// The code of the first `i` top-level messages of a file.
pub open spec fn spec_gen_messages(acc: Seq<char>, reg: RegistryModel, messages: Seq<DescriptorProto>, package: Seq<char>, i: int, pad: Seq<char>, kind: OutputKind) -> Result<Seq<char>, Seq<char>>
    decreases i,
{
    if i <= 0 {
        Ok(acc)
    } else {
        match spec_gen_messages(acc, reg, messages, package, i - 1, pad, kind) {
            Err(e) => Err(e),
            Ok(t) => spec_gen_message(t, reg, messages[i - 1], package, None, pad, kind),
        }
    }
}

proof fn lemma_gen_messages_err(acc: Seq<char>, reg: RegistryModel, messages: Seq<DescriptorProto>, package: Seq<char>, k: int, m: int, pad: Seq<char>, kind: OutputKind)
    requires
        0 <= k <= m,
        spec_gen_messages(acc, reg, messages, package, k, pad, kind) is Err,
    ensures
        spec_gen_messages(acc, reg, messages, package, m, pad, kind) == spec_gen_messages(acc, reg, messages, package, k, pad, kind),
    decreases m - k,
{
    if m > k {
        lemma_gen_messages_err(acc, reg, messages, package, k, m - 1, pad, kind);
    }
}

/// The file of the given kind written for a schema file: for the readers
/// its enums and the readers of its messages inside modules of its
/// package; otherwise the mutable messages.
pub open spec fn spec_generate_file(file: FileDescriptorProto, reg: RegistryModel, kind: OutputKind) -> Result<Seq<char>, Seq<char>> {
    let package = file.package@;
    let pad = kind_pad(package, kind);
    let head = spec_file_head(package, kind);
    let e = if kind == OutputKind::Readonly {
        spec_gen_enums(head, file.enum_types@, file.enum_types@.len() as int, pad)
    } else {
        head
    };
    finish_file(spec_gen_messages(e, reg, file.message_types@, package, file.message_types@.len() as int, pad, kind), package, kind)
}

/// The end of a file: for the readers, the closings of its package's modules.
pub open spec fn finish_file(r: Result<Seq<char>, Seq<char>>, package: Seq<char>, kind: OutputKind) -> Result<Seq<char>, Seq<char>> {
    match r {
        Err(err) => Err(err),
        Ok(t) => if kind == OutputKind::Readonly && package.len() != 0 {
            let parts = split_dot(package);
            Ok(mods_close(t, parts, parts.len() as int))
        } else {
            Ok(t)
        },
    }
}

/// Writes the start of a file of the given kind.
fn write_file_head(package: &str, kind: OutputKind, parts: &Vec<String>) -> (r: String)
    requires
        package@.len() < usize::MAX,
        parts@.len() == split_dot(package@).len(),
        forall|j: int| 0 <= j < parts@.len() ==> (#[trigger] parts@[j])@ == split_dot(package@)[j],
    ensures
        r@ == spec_file_head(package@, kind),
{
    let mut out = String::from_str("// @generated by protoc-gen-pcrs.\n");
    if kind == OutputKind::Readonly {
        if !package.is_empty() {
            let n: usize = parts.len();
            let mut k: usize = 0;
            while k < n
                invariant
                    k <= n,
                    n == parts@.len(),
                    n == split_dot(package@).len(),
                    forall|j: int| 0 <= j < parts@.len() ==> (#[trigger] parts@[j])@ == split_dot(package@)[j],
                    out@ == mods_open("// @generated by protoc-gen-pcrs.\n"@, split_dot(package@), k as int),
                decreases n - k,
            {
                out.append("pub mod ");
                out.append(parts[k].as_str());
                out.append(" {\n");
                k += 1;
            }
            out.append("\n");
            let pad: String = make_pad(package_depth(package));
            out.append(pad.as_str());
            out.append("use protocache_core::{ArrayView, BoolArray, EnumValue, FieldDecode, FieldView, MapView, MessageView, ScalarArray, StringView, ViewArray, ViewMap};\n\n");
        } else {
            out.append("use protocache_core::{ArrayView, BoolArray, EnumValue, FieldDecode, FieldView, MapView, MessageView, ScalarArray, StringView, ViewArray, ViewMap};\n\n");
        }
    } else {
        out.append("// Requires the corresponding .pc.rs file to be included first.\n");
        if !package.is_empty() {
            out.append("use ");
            let base: String = base_types_import(package);
            out.append(base.as_str());
            out.append(";\n\n");
        }
        out.append("use protocache_core::{ArrayView, Buffer, EnumValue, FieldView, MutableError, Unit, serialize_message_at};\n");
        out.append("use protocache_core::mutable::{MutableArray, MutableArrayElement, MutableField, MutableMap, MutableMessage};\n\n");
    }
    out
}

/// Writes the file of the given kind for a schema file.
pub fn generate_file(file: &FileDescriptorProto, reg: &Registry, kind: OutputKind) -> (r: Result<String, String>)
    requires
        reg.wf(),
        file.package@.len() < usize::MAX,
        forall|i: int| 0 <= i < file.message_types@.len() ==> plugin_ok(#[trigger] file.message_types@[i], kind == OutputKind::Extra),
    ensures
        text(r) == spec_generate_file(*file, reg.model(), kind),
{
    let package: &str = file.package.as_str();
    let parts: Vec<String> = split_dots(package);
    let n: usize = parts.len();
    let mut out: String = write_file_head(package, kind, &parts);
    let depth: usize = if kind == OutputKind::Readonly {
        package_depth(package)
    } else {
        0
    };
    let pad_s: String = make_pad(depth);
    let pad: &str = pad_s.as_str();
    assert(pad@ == kind_pad(package@, kind));
    let ghost head = out@;
    if kind == OutputKind::Readonly {
        let mut i: usize = 0;
        while i < file.enum_types.len()
            invariant
                i <= file.enum_types@.len(),
                out@ == spec_gen_enums(head, file.enum_types@, i as int, pad@),
            decreases file.enum_types@.len() - i,
        {
            generate_enum(&mut out, &file.enum_types[i], pad);
            i += 1;
        }
    }
    let ghost e = out@;
    let m: usize = file.message_types.len();
    assert(spec_generate_file(*file, reg.model(), kind) == finish_file(spec_gen_messages(e, reg.model(), file.message_types@, package@, m as int, pad@, kind), package@, kind));
    let mut k: usize = 0;
    while k < m
        invariant
            k <= m,
            m == file.message_types@.len(),
            reg.wf(),
            forall|i: int| 0 <= i < file.message_types@.len() ==> plugin_ok(#[trigger] file.message_types@[i], kind == OutputKind::Extra),
            spec_gen_messages(e, reg.model(), file.message_types@, package@, k as int, pad@, kind) == Ok::<Seq<char>, Seq<char>>(out@),
            spec_generate_file(*file, reg.model(), kind) == finish_file(spec_gen_messages(e, reg.model(), file.message_types@, package@, m as int, pad@, kind), package@, kind),
        decreases m - k,
    {
        assert(plugin_ok(file.message_types@[k as int], kind == OutputKind::Extra));
        match generate_message(&mut out, reg, &file.message_types[k], package, None, pad, kind) {
            Ok(()) => {},
            Err(err) => {
                proof {
                    assert(spec_gen_messages(e, reg.model(), file.message_types@, package@, (k + 1) as int, pad@, kind) == Err::<Seq<char>, Seq<char>>(err@));
                    lemma_gen_messages_err(e, reg.model(), file.message_types@, package@, (k + 1) as int, m as int, pad@, kind);
                }
                return Err(err);
            },
        }
        k += 1;
    }
    if kind == OutputKind::Readonly && !package.is_empty() {
        let ghost t = out@;
        let mut k: usize = 0;
        while k < n
            invariant
                k <= n,
                n == parts@.len(),
                n == split_dot(package@).len(),
                forall|j: int| 0 <= j < parts@.len() ==> (#[trigger] parts@[j])@ == split_dot(package@)[j],
                out@ == mods_close(t, split_dot(package@), k as int),
            decreases n - k,
        {
            out.append("} // mod ");
            out.append(parts[n - 1 - k].as_str());
            out.append("\n");
            k += 1;
        }
    }
    Ok(out)
}

/// Whether `name` is among the names of the files to write.
pub open spec fn wants(wanted: Seq<String>, name: Seq<char>) -> bool {
    exists|j: int| 0 <= j < wanted.len() && (#[trigger] wanted[j])@ == name
}

/// Whether `name` is among the names of the files to write.
fn is_wanted(wanted: &Vec<String>, name: &String) -> (r: bool)
    ensures
        r == wants(wanted@, name@),
{
    let mut j: usize = 0;
    while j < wanted.len()
        invariant
            j <= wanted@.len(),
            forall|i: int| 0 <= i < j ==> (#[trigger] wanted@[i])@ != name@,
        decreases wanted@.len() - j,
    {
        if wanted[j] == *name {
            assert(wanted@[j as int]@ == name@);
            return true;
        }
        j += 1;
    }
    false
}

/// The names and contents of written files, as text.
pub open spec fn pairs_view(v: Seq<(String, String)>) -> Seq<(Seq<char>, Seq<char>)> {
    v.map_values(|p: (String, String)| (p.0@, p.1@))
}

/// The files written for one schema file named `name`: none unless it is
/// wanted, else its readers, then with `extra` its mutable messages.
pub open spec fn output_step(t: Seq<(Seq<char>, Seq<char>)>, reg: RegistryModel, file: FileDescriptorProto, name: Seq<char>, wanted: Seq<String>, extra: bool) -> Result<Seq<(Seq<char>, Seq<char>)>, Seq<char>> {
    if !wants(wanted, name) {
        Ok(t)
    } else {
        match spec_generate_file(file, reg, OutputKind::Readonly) {
            Err(e) => Err("failed to generate "@ + name + ": "@ + e),
            Ok(c) => {
                let t1 = t.push((file_stem(name) + ".pc.rs"@, c));
                if !extra {
                    Ok(t1)
                } else {
                    match spec_generate_file(file, reg, OutputKind::Extra) {
                        Err(e) => Err("failed to generate extra for "@ + name + ": "@ + e),
                        Ok(c2) => Ok(t1.push((file_stem(name) + ".pc-ex.rs"@, c2))),
                    }
                }
            },
        }
    }
}

/// The files written for the first `k` schema files, or the first error.
pub open spec fn spec_outputs(reg: RegistryModel, files: Seq<FileDescriptorProto>, names: Seq<String>, wanted: Seq<String>, extra: bool, k: int) -> Result<Seq<(Seq<char>, Seq<char>)>, Seq<char>>
    decreases k,
{
    if k <= 0 {
        Ok(Seq::empty())
    } else {
        match spec_outputs(reg, files, names, wanted, extra, k - 1) {
            Err(e) => Err(e),
            Ok(t) => output_step(t, reg, files[k - 1], names[k - 1]@, wanted, extra),
        }
    }
}

proof fn lemma_outputs_err(reg: RegistryModel, files: Seq<FileDescriptorProto>, names: Seq<String>, wanted: Seq<String>, extra: bool, k: int, m: int)
    requires
        0 <= k <= m,
        spec_outputs(reg, files, names, wanted, extra, k) is Err,
    ensures
        spec_outputs(reg, files, names, wanted, extra, m) == spec_outputs(reg, files, names, wanted, extra, k),
    decreases m - k,
{
    if m > k {
        lemma_outputs_err(reg, files, names, wanted, extra, k, m - 1);
    }
}

/// The files written for a code generation request over `files`, named
/// `names`: for each wanted file in order, its readers and, with `extra`,
/// its mutable messages, with the types of every file registered; or the
/// first error, with the name of the file it came from.
pub fn generate_outputs(files: &Vec<FileDescriptorProto>, names: &Vec<String>, wanted: &Vec<String>, extra: bool) -> (r: Result<Vec<(String, String)>, String>)
    requires
        names@.len() == files@.len(),
        forall|i: int| 0 <= i < files@.len() ==> (#[trigger] files@[i]).package@.len() < usize::MAX,
        forall|i: int, j: int|
            0 <= i < files@.len() && wants(wanted@, names@[i]@) && 0 <= j < files@[i].message_types@.len()
                ==> plugin_ok(#[trigger] files@[i].message_types@[j], extra),
    ensures
        match r {
            Ok(v) => spec_outputs(spec_build(files@, files@.len() as int, true), files@, names@, wanted@, extra, files@.len() as int) == Ok::<Seq<(Seq<char>, Seq<char>)>, Seq<char>>(pairs_view(v@)),
            Err(e) => spec_outputs(spec_build(files@, files@.len() as int, true), files@, names@, wanted@, extra, files@.len() as int) == Err::<Seq<(Seq<char>, Seq<char>)>, Seq<char>>(e@),
        },
{
    let reg: Registry = build_registry(files.as_slice(), true);
    let ghost m = reg.model();
    let n: usize = files.len();
    let mut out: Vec<(String, String)> = Vec::new();
    let mut i: usize = 0;
    assert(pairs_view(out@) =~= Seq::<(Seq<char>, Seq<char>)>::empty());
    while i < n
        invariant
            i <= n,
            n == files@.len(),
            names@.len() == files@.len(),
            reg.wf(),
            reg.model() == m,
            m == spec_build(files@, files@.len() as int, true),
            forall|i: int| 0 <= i < files@.len() ==> (#[trigger] files@[i]).package@.len() < usize::MAX,
            forall|i: int, j: int|
                0 <= i < files@.len() && wants(wanted@, names@[i]@) && 0 <= j < files@[i].message_types@.len()
                    ==> plugin_ok(#[trigger] files@[i].message_types@[j], extra),
            spec_outputs(m, files@, names@, wanted@, extra, i as int) == Ok::<Seq<(Seq<char>, Seq<char>)>, Seq<char>>(pairs_view(out@)),
        decreases n - i,
    {
        let file: &FileDescriptorProto = &files[i];
        let name: &String = &names[i];
        assert(file.package@.len() < usize::MAX);
        if is_wanted(wanted, name) {
            assert forall|j: int| 0 <= j < file.message_types@.len() implies plugin_ok(#[trigger] file.message_types@[j], false) by {
                assert(plugin_ok(files@[i as int].message_types@[j], extra));
                if extra {
                    lemma_plugin_ok_readonly(file.message_types@[j]);
                }
            }
            let ghost before = out@;
            match generate_file(file, &reg, OutputKind::Readonly) {
                Ok(content) => {
                    let path: String = convert_filename(name.as_str());
                    out.push((path, content));
                    assert(pairs_view(out@) =~= pairs_view(before).push((file_stem(name@) + ".pc.rs"@, content@)));
                },
                Err(e) => {
                    let msg: String = String::from_str("failed to generate ").concat(name.as_str()).concat(": ").concat(e.as_str());
                    proof {
                        lemma_outputs_err(m, files@, names@, wanted@, extra, (i + 1) as int, n as int);
                    }
                    return Err(msg);
                },
            }
            if extra {
                assert forall|j: int| 0 <= j < file.message_types@.len() implies plugin_ok(#[trigger] file.message_types@[j], true) by {
                    assert(plugin_ok(files@[i as int].message_types@[j], extra));
                }
                let ghost mid = out@;
                match generate_file(file, &reg, OutputKind::Extra) {
                    Ok(content) => {
                        let path: String = convert_ex_filename(name.as_str());
                        out.push((path, content));
                        assert(pairs_view(out@) =~= pairs_view(mid).push((file_stem(name@) + ".pc-ex.rs"@, content@)));
                    },
                    Err(e) => {
                        let msg: String = String::from_str("failed to generate extra for ").concat(name.as_str()).concat(": ").concat(e.as_str());
                        proof {
                            lemma_outputs_err(m, files@, names@, wanted@, extra, (i + 1) as int, n as int);
                        }
                        return Err(msg);
                    },
                }
            }
        }
        i += 1;
    }
    Ok(out)
}

/// Checks a request's schema files by registering them all into a fresh
/// pool, stopping at the first error, and hands back that pool.
pub fn validate_request(files: &Vec<FileDescriptorProto>) -> (r: Result<DescriptorPool, RegisterError>)
    requires
        forall|i: int| 0 <= i < files@.len() ==> file_well_formed(#[trigger] files@[i]),
    ensures
        match r {
            Ok(pool) => {
                &&& pool.wf()
                &&& pool.resolved()
                &&& forall|i: int, j: int|
                    0 <= i < files@.len() && 0 <= j < files@[i].message_types@.len() && !(#[trigger] files@[i].message_types@[j]).deprecated
                        ==> has_key(pool.spec_descriptors(), spec_full_name(files@[i].package@, files@[i].message_types@[j].name@))
                        && message_valid(files@[i].message_types@[j])
            },
            Err(_) => true,
        },
        files_register(files@, files@.len() as int) ==> (r is Ok || r matches Err(RegisterError::UnknownType { .. })),
        r is Ok ==> files_register(files@, files@.len() as int),
        r matches Err(e) ==> e is UnknownType || exists|i: int|
            0 <= i < files@.len() && files_register(files@, i) && !#[trigger] file_registers(
                files_keys(files@, i),
                files@[i],
                files@[i].message_types@.len() as int,
            ),
{
    load_descriptor_pool(files)
}

/// The file written for one schema file named `name` by the single-file
/// generator: none unless it is wanted, else its readers and mutable
/// messages together.
pub open spec fn library_step(t: Seq<(Seq<char>, Seq<char>)>, reg: RegistryModel, file: FileDescriptorProto, name: Seq<char>, wanted: Seq<String>) -> Result<Seq<(Seq<char>, Seq<char>)>, Seq<char>> {
    if !wants(wanted, name) {
        Ok(t)
    } else {
        match crate::codegen::spec_generate_file(file, reg) {
            Err(e) => Err("failed to generate "@ + name + ": "@ + e),
            Ok(c) => Ok(t.push((file_stem(name) + ".pc.rs"@, c))),
        }
    }
}

/// The files written by the single-file generator for the first `k` schema
/// files, or the first error.
pub open spec fn spec_library_outputs(reg: RegistryModel, files: Seq<FileDescriptorProto>, names: Seq<String>, wanted: Seq<String>, k: int) -> Result<Seq<(Seq<char>, Seq<char>)>, Seq<char>>
    decreases k,
{
    if k <= 0 {
        Ok(Seq::empty())
    } else {
        match spec_library_outputs(reg, files, names, wanted, k - 1) {
            Err(e) => Err(e),
            Ok(t) => library_step(t, reg, files[k - 1], names[k - 1]@, wanted),
        }
    }
}

proof fn lemma_library_outputs_err(reg: RegistryModel, files: Seq<FileDescriptorProto>, names: Seq<String>, wanted: Seq<String>, k: int, m: int)
    requires
        0 <= k <= m,
        spec_library_outputs(reg, files, names, wanted, k) is Err,
    ensures
        spec_library_outputs(reg, files, names, wanted, m) == spec_library_outputs(reg, files, names, wanted, k),
    decreases m - k,
{
    if m > k {
        lemma_library_outputs_err(reg, files, names, wanted, k, m - 1);
    }
}

/// The files written by the single-file generator for a request over
/// `files`, named `names`: for each wanted file in order, one file with its
/// readers and mutable messages, with the types of every file registered;
/// or the first error, with the name of the file it came from.
pub fn generate_library_outputs(files: &Vec<FileDescriptorProto>, names: &Vec<String>, wanted: &Vec<String>) -> (r: Result<Vec<(String, String)>, String>)
    requires
        names@.len() == files@.len(),
        forall|i: int| 0 <= i < files@.len() ==> (#[trigger] files@[i]).package@.len() < usize::MAX,
        forall|i: int, j: int|
            0 <= i < files@.len() && wants(wanted@, names@[i]@) && 0 <= j < files@[i].message_types@.len()
                ==> gen_ok(#[trigger] files@[i].message_types@[j]),
    ensures
        match r {
            Ok(v) => spec_library_outputs(spec_build(files@, files@.len() as int, false), files@, names@, wanted@, files@.len() as int) == Ok::<Seq<(Seq<char>, Seq<char>)>, Seq<char>>(pairs_view(v@)),
            Err(e) => spec_library_outputs(spec_build(files@, files@.len() as int, false), files@, names@, wanted@, files@.len() as int) == Err::<Seq<(Seq<char>, Seq<char>)>, Seq<char>>(e@),
        },
{
    let reg: Registry = build_registry(files.as_slice(), false);
    let ghost m = reg.model();
    let n: usize = files.len();
    let mut out: Vec<(String, String)> = Vec::new();
    let mut i: usize = 0;
    assert(pairs_view(out@) =~= Seq::<(Seq<char>, Seq<char>)>::empty());
    while i < n
        invariant
            i <= n,
            n == files@.len(),
            names@.len() == files@.len(),
            reg.wf(),
            reg.model() == m,
            m == spec_build(files@, files@.len() as int, false),
            forall|i: int| 0 <= i < files@.len() ==> (#[trigger] files@[i]).package@.len() < usize::MAX,
            forall|i: int, j: int|
                0 <= i < files@.len() && wants(wanted@, names@[i]@) && 0 <= j < files@[i].message_types@.len()
                    ==> gen_ok(#[trigger] files@[i].message_types@[j]),
            spec_library_outputs(m, files@, names@, wanted@, i as int) == Ok::<Seq<(Seq<char>, Seq<char>)>, Seq<char>>(pairs_view(out@)),
        decreases n - i,
    {
        let file: &FileDescriptorProto = &files[i];
        let name: &String = &names[i];
        assert(file.package@.len() < usize::MAX);
        if is_wanted(wanted, name) {
            assert forall|j: int| 0 <= j < file.message_types@.len() implies gen_ok(#[trigger] file.message_types@[j]) by {
                assert(gen_ok(files@[i as int].message_types@[j]));
            }
            let ghost before = out@;
            match crate::codegen::generate_file(file, &reg) {
                Ok(content) => {
                    let path: String = convert_filename(name.as_str());
                    out.push((path, content));
                    assert(pairs_view(out@) =~= pairs_view(before).push((file_stem(name@) + ".pc.rs"@, content@)));
                },
                Err(e) => {
                    let msg: String = String::from_str("failed to generate ").concat(name.as_str()).concat(": ").concat(e.as_str());
                    proof {
                        lemma_library_outputs_err(m, files@, names@, wanted@, (i + 1) as int, n as int);
                    }
                    return Err(msg);
                },
            }
        }
        i += 1;
    }
    Ok(out)
}

} // verus!
