//! Schema-driven type generator: parses a compact JSON-shaped invocation (a
//! type name, generation flags and an example value tree) into a value and
//! configuration model, and walks that model to produce one primary type
//! definition plus auxiliary definitions for nested objects, each annotated
//! with naming and serialization metadata. An optional pass renders the
//! example value as canonical JSON text for a lazily initialized constant.

use vstd::prelude::*;

mod embed;
mod generator;
mod parser;

pub use embed::canonical_text;
pub use embed::object_text;
pub use embed::spec_ser;
pub use embed::spec_upper;
pub use embed::upper_ident;
pub use generator::generate_structs;
pub use generator::infer_array_type;
pub use generator::lemma_alias_fidelity;
pub use generator::lemma_config_uniform;
pub use generator::lemma_field_correspondence;
pub use generator::lemma_sanitize_idempotent;
pub use generator::sanitize_identifier;
pub use generator::spec_capabilities;
pub use generator::spec_elem_type;
pub use generator::spec_field;
pub use generator::spec_gen_fields;
pub use generator::spec_generate;
pub use generator::spec_sanitize;
pub use generator::pascal_of;
pub use generator::ElementType;
pub use generator::FieldDefinition;
pub use generator::FieldModel;
pub use generator::TypeDefModel;
pub use generator::TypeDefinition;
pub use generator::TypeRefModel;
pub use generator::TypeReference;
pub use embed::decodes_ok;
pub use embed::esc;
pub use embed::esc_char;
pub use generator::is_alnum_char;
pub use generator::keep_char;
pub use generator::lower_of;
pub use generator::spec_replaced;
pub use parser::apply_simple_flag_spec;
pub use parser::canon_num;
pub use parser::default_flags_model;
pub use parser::derive_items;
pub use parser::digits_end;
pub use parser::elems_end;
pub use parser::elems_ok;
pub use parser::entries_end;
pub use parser::entries_ok;
pub use parser::flags_fold;
pub use parser::flags_model;
pub use parser::is_simple_flag;
pub use parser::leading_ident;
pub use parser::model;
pub use parser::model_entries;
pub use parser::ident_end;
pub use parser::invocation_ok;
pub use parser::is_ident_seq;
pub use parser::lex_str_body;
pub use parser::model_seq;
pub use parser::spec_message;
pub use parser::stops_at_unknown_flag;
pub use parser::spec_style_text;
pub use parser::value_end;
pub use parser::value_ok;
pub use parser::ws_end;
pub use parser::parse_entries;
pub use parser::parse_json_value;
pub use parser::FlagsModel;
pub use parser::JsonMacroFlags;
pub use parser::JsonMacroInput;
pub use parser::JsonStruct;
pub use parser::JsonValue;
pub use parser::ParseError;
pub use parser::RenameStyle;
pub use parser::ValueModel;

verus! {

use crate::generator::fields_model;
use crate::generator::type_def_model;
use crate::generator::type_defs_model;

/// The named, lazily initialized constant the embedder emits: its identifier
/// and the canonical JSON text it decodes at first access.
pub struct JsonConstant {
    pub name: String,
    pub text: String,
}

/// Everything one invocation expands to: the optional embedded constant, the
/// primary type definition, and the auxiliary definitions in emission order.
pub struct MacroOutput {
    pub json_constant: Option<JsonConstant>,
    pub main_struct: TypeDefinition,
    pub all_structs: Vec<TypeDefinition>,
}

/// The model of one field of the expanded primary type.
pub open spec fn field_of(out: MacroOutput, i: int) -> FieldModel {
    crate::generator::field_model(out.main_struct.fields@[i])
}

/// Expands one parsed invocation: generates the primary and auxiliary type
/// definitions from the value tree and configuration, and, where the
/// invocation asked to store the example, the embedded constant named after
/// the uppercased type name, holding the root object's canonical text.
pub fn expand(input: &JsonMacroInput) -> (r: MacroOutput)
    ensures
        type_def_model(r.main_struct) == spec_generate(
            model_entries(input.content.entries@),
            input.struct_name@,
            flags_model(input.flags),
        ).0,
        type_defs_model(r.all_structs@) == spec_generate(
            model_entries(input.content.entries@),
            input.struct_name@,
            flags_model(input.flags),
        ).1,
        input.flags.store_json_value ==> (r.json_constant matches Some(c) && c.name@ == spec_upper(
            input.struct_name@,
        ) + "_JSON_VALUE"@ && c.text@ == spec_ser(
            ValueModel::Obj(model_entries(input.content.entries@)),
        )),
        !input.flags.store_json_value ==> r.json_constant is None,
{
    let json_constant: Option<JsonConstant> = if input.flags.store_json_value {
        let mut name = upper_ident(input.struct_name.as_str());
        name.append("_JSON_VALUE");
        let text = object_text(&input.content.entries);
        Some(JsonConstant { name, text })
    } else {
        None
    };
    let (main_struct, all_structs) = generate_structs(input, &input.struct_name);
    MacroOutput { json_constant, main_struct, all_structs }
}

/// Parses and expands one whole invocation. On success every auxiliary type
/// carries exactly the primary type's capabilities and rename style, and the
/// primary type's fields either all carry their source key as alias or all
/// carry none; a rejected invocation produces no definitions, and an
/// unknown-flag error names a token outside the recognized set.
pub fn json2struct(input: &str) -> (r: Result<MacroOutput, ParseError>)
    ensures
        r matches Ok(out) ==> (forall|t: int|
            0 <= t < out.all_structs@.len() ==> #[trigger] type_def_model(
                out.all_structs@[t],
            ).capabilities == type_def_model(out.main_struct).capabilities && type_def_model(
                out.all_structs@[t],
            ).rename_style == type_def_model(out.main_struct).rename_style),
        r matches Ok(out) ==> ((forall|i: int|
            0 <= i < out.main_struct.fields@.len() ==> (#[trigger] field_of(out, i)).alias == Some(
                field_of(out, i).source_key,
            )) || (forall|i: int|
            0 <= i < out.main_struct.fields@.len() ==> (#[trigger] field_of(out, i)).alias
                is None)),
        r matches Ok(_) ==> parser::invocation_ok(input@),
        r matches Err(_) ==> !parser::invocation_ok(input@),
        r matches Ok(out) ==> exists|entries: Seq<(Seq<char>, ValueModel)>, f: FlagsModel|
            #![trigger spec_generate(entries, leading_ident(input@), f)]
            ({
                &&& f == parser::flags_fold(
                    input@,
                    parser::ident_end(input@, parser::ws_end(input@, 0)),
                    parser::default_flags_model(),
                ).0
                &&& type_def_model(out.main_struct) == spec_generate(
                    entries,
                    leading_ident(input@),
                    f,
                ).0
                &&& type_defs_model(out.all_structs@) == spec_generate(
                    entries,
                    leading_ident(input@),
                    f,
                ).1
                &&& (exists|o: int|
                    0 <= o < input@.len() && #[trigger] input@[o] == '{' && parser::entries_ok(
                        entries,
                        input@,
                        o + 1,
                    ))
                &&& (f.store_json_value ==> (out.json_constant matches Some(c) && c.name@
                    == spec_upper(leading_ident(input@)) + "_JSON_VALUE"@ && c.text@ == spec_ser(
                    ValueModel::Obj(entries),
                )))
                &&& (!f.store_json_value ==> out.json_constant is None)
            }),
        r matches Err(e) ==> (e matches ParseError::UnknownFlag { flag, .. } ==> !is_simple_flag(
            flag@,
        ) && flag@ != "derive"@),
        r matches Err(e) ==> (stops_at_unknown_flag(input@) ==> e is UnknownFlag),
{
    let parsed = match JsonMacroInput::parse(input) {
        Ok(p) => p,
        Err(e) => {
            return Err(e);
        },
    };
    let out = expand(&parsed);
    proof {
        let entries = model_entries(parsed.content.entries@);
        let base = parsed.struct_name@;
        let fm = flags_model(parsed.flags);
        crate::generator::lemma_config_uniform(entries, base, fm);
        crate::generator::lemma_field_correspondence(entries, base, fm);
        let nm = leading_ident(input@);
        assert(parsed.struct_name@ == nm);
        assert(fm == parser::flags_fold(
            input@,
            parser::ident_end(input@, parser::ws_end(input@, 0)),
            parser::default_flags_model(),
        ).0);
        assert(type_def_model(out.main_struct) == spec_generate(entries, nm, fm).0);
        assert(type_defs_model(out.all_structs@) == spec_generate(entries, nm, fm).1);
        if fm.store_json_value {
            assert(out.json_constant matches Some(c) && c.name@ == spec_upper(nm)
                + "_JSON_VALUE"@ && c.text@ == spec_ser(ValueModel::Obj(entries)));
        }
        assert forall|t: int| 0 <= t < out.all_structs@.len() implies #[trigger] type_def_model(
            out.all_structs@[t],
        ).capabilities == type_def_model(out.main_struct).capabilities && type_def_model(
            out.all_structs@[t],
        ).rename_style == type_def_model(out.main_struct).rename_style by {
            assert(type_defs_model(out.all_structs@)[t] == type_def_model(out.all_structs@[t]));
            assert(type_defs_model(out.all_structs@)[t] == spec_gen_fields(entries, base, fm).1[t]);
        }
        assert forall|i: int| 0 <= i < out.main_struct.fields@.len() implies #[trigger] field_of(
            out,
            i,
        ) == spec_field(entries[i].0, entries[i].1, base, fm) by {
            assert(fields_model(out.main_struct.fields@)[i] == field_of(out, i));
            assert(fields_model(out.main_struct.fields@)[i] == spec_gen_fields(
                entries,
                base,
                fm,
            ).0[i]);
        }
    }
    Ok(out)
}

} // verus!
