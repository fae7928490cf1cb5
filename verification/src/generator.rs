//! Type generation: identifier sanitization, field type inference, and the
//! recursive walk that turns a parsed value tree into type definitions.

use vstd::prelude::*;

verus! {

use crate::parser::chars_of;
use crate::parser::string_from_chars;
use crate::parser::flags_model;
use crate::parser::model;
use crate::parser::model_entries;
use crate::parser::model_seq;
use crate::parser::strs_model;
use crate::parser::FlagsModel;
use crate::parser::JsonMacroFlags;
use crate::parser::JsonMacroInput;
use crate::parser::JsonValue;
use crate::parser::RenameStyle;
use crate::parser::ValueModel;

/// Whether a character counts as alphanumeric. Relies on
/// char::is_alphanumeric: the answer depends on the character alone.
pub uninterp spec fn is_alnum_char(c: char) -> bool;

/// Relies on char::is_alphanumeric: true exactly for the characters of the
/// Unicode letter and number categories.
#[verifier::external_body]
fn char_is_alphanumeric(c: char) -> (b: bool)
    ensures
        b == is_alnum_char(c),
{
    c.is_alphanumeric()
}

/// The lowercase equivalent of a string. Relies on str::to_lowercase: the
/// result depends on the characters alone.
pub uninterp spec fn lower_of(s: Seq<char>) -> Seq<char>;

/// Relies on str::to_lowercase: returns the Unicode lowercase equivalent of
/// the string.
#[verifier::external_body]
fn lowercase(s: &str) -> (r: String)
    ensures
        r@ == lower_of(s@),
{
    s.to_lowercase()
}

/// What one character of a source key becomes before lower-casing:
/// alphanumerics are kept, everything else is replaced by an underscore.
pub open spec fn keep_char(c: char) -> char {
    if is_alnum_char(c) {
        c
    } else {
        '_'
    }
}

/// A source key with every non-alphanumeric character replaced by `_`.
pub open spec fn spec_replaced(s: Seq<char>) -> Seq<char> {
    s.map_values(|c: char| keep_char(c))
}

/// The sanitized form of a source key: non-alphanumerics replaced by `_`,
/// then the whole string lower-cased.
pub open spec fn spec_sanitize(s: Seq<char>) -> Seq<char> {
    lower_of(spec_replaced(s))
}

/// Sanitizes a source key into a valid identifier: every non-alphanumeric
/// character becomes `_` and the result is lower-cased.
pub fn sanitize_identifier(name: &str) -> (r: String)
    ensures
        r@ == spec_sanitize(name@),
{
    let cs = chars_of(name);
    let mut kept: Vec<char> = Vec::new();
    let mut i: usize = 0;
    assert(kept@ =~= spec_replaced(name@.subrange(0, 0)));
    while i < cs.len()
        invariant
            i <= cs.len(),
            cs@ == name@,
            kept@ == spec_replaced(name@.subrange(0, i as int)),
        decreases cs.len() - i,
    {
        let c = cs[i];
        let k: char = if char_is_alphanumeric(c) {
            c
        } else {
            '_'
        };
        assert(k == keep_char(name@[i as int]));
        kept.push(k);
        assert(kept@ =~= spec_replaced(name@.subrange(0, i + 1 as int)));
        i = i + 1;
    }
    assert(name@.subrange(0, name@.len() as int) =~= name@);
    let replaced = string_from_chars(&kept);
    lowercase(replaced.as_str())
}

/// Sanitizing a second time changes nothing, on every input whose sanitized
/// form again consists of kept characters and underscores and is already
/// lowercase. The two conditions are exactly where the law holds: Unicode
/// lower-casing can produce characters outside the letter and number
/// categories, and on such an input a second pass replaces them.
pub proof fn lemma_sanitize_idempotent(s: Seq<char>)
    requires
        forall|k: int|
            0 <= k < spec_sanitize(s).len() ==> is_alnum_char(#[trigger] spec_sanitize(s)[k])
                || spec_sanitize(s)[k] == '_',
        lower_of(spec_sanitize(s)) == spec_sanitize(s),
    ensures
        spec_sanitize(spec_sanitize(s)) == spec_sanitize(s),
{
    let once = spec_sanitize(s);
    assert forall|k: int| 0 <= k < once.len() implies #[trigger] spec_replaced(once)[k]
        == once[k] by {
        assert(spec_replaced(once)[k] == keep_char(once[k]));
    }
    assert(spec_replaced(once) =~= once);
}

/// What one capitalized nested key becomes. Relies on
/// inflections::case::to_pascal_case: the result depends on the characters of
/// the input alone.
pub uninterp spec fn pascal_of(s: Seq<char>) -> Seq<char>;

/// Relies on inflections::case::to_pascal_case: capitalizes each word of the
/// key, as the crate's own documentation shows (`"addr"` becomes `"Addr"`).
#[verifier::external_body]
fn to_pascal_case(s: &str) -> (r: String)
    ensures
        r@ == pascal_of(s@),
{
    inflections::case::to_pascal_case(s)
}

/// The element type of a sequence field.
#[derive(Clone, Copy, PartialEq, Eq, Structural, Debug)]
pub enum ElementType {
    StringElem,
    NumberElem,
    BoolElem,
    AnyElem,
}

/// What a field's value is declared as: a primitive, an optional opaque
/// value, a sequence, or a reference to a generated auxiliary type.
pub enum TypeReference {
    StringType,
    NumberType,
    BoolType,
    AnyOptional,
    Sequence(ElementType),
    Reference(String),
}

/// The mathematical model of a [`TypeReference`].
#[verifier::ext_equal]
pub enum TypeRefModel {
    Str,
    Num,
    Bool,
    AnyOpt,
    SeqOf(ElementType),
    Ref(Seq<char>),
}

/// The model of a type reference.
pub open spec fn type_ref_model(t: TypeReference) -> TypeRefModel {
    match t {
        TypeReference::StringType => TypeRefModel::Str,
        TypeReference::NumberType => TypeRefModel::Num,
        TypeReference::BoolType => TypeRefModel::Bool,
        TypeReference::AnyOptional => TypeRefModel::AnyOpt,
        TypeReference::Sequence(e) => TypeRefModel::SeqOf(e),
        TypeReference::Reference(n) => TypeRefModel::Ref(n@),
    }
}

/// One generated field: the original key, the sanitized name, the inferred
/// type, and the optional serialization alias.
pub struct FieldDefinition {
    pub source_key: String,
    pub field_name: String,
    pub type_reference: TypeReference,
    pub alias: Option<String>,
}

/// The mathematical model of a [`FieldDefinition`].
#[verifier::ext_equal]
pub struct FieldModel {
    pub source_key: Seq<char>,
    pub field_name: Seq<char>,
    pub type_reference: TypeRefModel,
    pub alias: Option<Seq<char>>,
}

/// The model of a field definition.
pub open spec fn field_model(f: FieldDefinition) -> FieldModel {
    FieldModel {
        source_key: f.source_key@,
        field_name: f.field_name@,
        type_reference: type_ref_model(f.type_reference),
        alias: match f.alias {
            Some(a) => Some(a@),
            None => None,
        },
    }
}

/// The models of a list of fields.
pub open spec fn fields_model(fs: Seq<FieldDefinition>) -> Seq<FieldModel> {
    fs.map_values(|f: FieldDefinition| field_model(f))
}

/// One generated type: its name, its fields in entry order, its capability
/// tokens, and the naming convention it carries.
pub struct TypeDefinition {
    pub name: String,
    pub fields: Vec<FieldDefinition>,
    pub capabilities: Vec<String>,
    pub rename_style: Option<RenameStyle>,
}

/// The mathematical model of a [`TypeDefinition`].
#[verifier::ext_equal]
pub struct TypeDefModel {
    pub name: Seq<char>,
    pub fields: Seq<FieldModel>,
    pub capabilities: Seq<Seq<char>>,
    pub rename_style: Option<RenameStyle>,
}

/// The model of a type definition.
pub open spec fn type_def_model(t: TypeDefinition) -> TypeDefModel {
    TypeDefModel {
        name: t.name@,
        fields: fields_model(t.fields@),
        capabilities: strs_model(t.capabilities@),
        rename_style: t.rename_style,
    }
}

/// The models of a list of type definitions.
pub open spec fn type_defs_model(ts: Seq<TypeDefinition>) -> Seq<TypeDefModel> {
    ts.map_values(|t: TypeDefinition| type_def_model(t))
}

// ---------------------------------------------------------------------------
// Capabilities.
// ---------------------------------------------------------------------------

/// Order-preserving removal of repeated tokens.
pub open spec fn spec_dedup(s: Seq<Seq<char>>) -> Seq<Seq<char>>
    decreases s.len(),
{
    if s.len() == 0 {
        Seq::empty()
    } else {
        let d = spec_dedup(s.drop_last());
        if d.contains(s.last()) {
            d
        } else {
            d.push(s.last())
        }
    }
}

/// The capability tokens of every generated type: `Clone` always and first,
/// `Debug` where the debug flag is set, then the user-supplied tokens, with
/// repeats removed.
pub open spec fn spec_capabilities(f: FlagsModel) -> Seq<Seq<char>> {
    spec_dedup(
        seq!["Clone"@] + (if f.debug {
            seq!["Debug"@]
        } else {
            Seq::empty()
        }) + f.custom_derives,
    )
}

/// Whether the list holds a string with exactly these characters.
fn contains_str(v: &Vec<String>, x: &String) -> (b: bool)
    ensures
        b == strs_model(v@).contains(x@),
{
    let mut i: usize = 0;
    while i < v.len()
        invariant
            i <= v@.len(),
            forall|t: int| 0 <= t < i ==> v@[t]@ != x@,
        decreases v@.len() - i,
    {
        if v[i].eq(x) {
            assert(strs_model(v@)[i as int] == v@[i as int]@);
            return true;
        }
        i = i + 1;
    }
    assert forall|t: int| 0 <= t < strs_model(v@).len() implies strs_model(v@)[t] != x@ by {
        assert(strs_model(v@)[t] == v@[t]@);
    }
    false
}

/// Removes repeated tokens, keeping the first occurrence of each.
fn dedup_strings(v: Vec<String>) -> (r: Vec<String>)
    ensures
        strs_model(r@) == spec_dedup(strs_model(v@)),
{
    let mut out: Vec<String> = Vec::new();
    let mut i: usize = 0;
    assert(strs_model(v@.subrange(0, 0)) =~= Seq::<Seq<char>>::empty());
    assert(strs_model(out@) =~= spec_dedup(strs_model(v@.subrange(0, 0))));
    while i < v.len()
        invariant
            i <= v@.len(),
            strs_model(out@) == spec_dedup(strs_model(v@.subrange(0, i as int))),
        decreases v@.len() - i,
    {
        let ghost pre = strs_model(v@.subrange(0, i as int));
        let ghost post = strs_model(v@.subrange(0, i + 1 as int));
        proof {
            assert(v@.subrange(0, i + 1 as int).drop_last() =~= v@.subrange(0, i as int));
            assert(post.drop_last() =~= pre);
            assert(post.last() == v@[i as int]@);
        }
        let hit = contains_str(&out, &v[i]);
        if !hit {
            let c = v[i].clone();
            out.push(c);
            assert(strs_model(out@) =~= spec_dedup(pre).push(v@[i as int]@));
        }
        i = i + 1;
    }
    assert(v@.subrange(0, v@.len() as int) =~= v@);
    out
}

/// Builds the capability tokens of [`spec_capabilities`] for a configuration.
fn build_capabilities(flags: &JsonMacroFlags) -> (r: Vec<String>)
    ensures
        strs_model(r@) == spec_capabilities(flags_model(*flags)),
{
    let mut all: Vec<String> = Vec::new();
    all.push(String::from_str("Clone"));
    if flags.debug {
        all.push(String::from_str("Debug"));
    }
    let ghost head = seq!["Clone"@] + (if flags.debug {
        seq!["Debug"@]
    } else {
        Seq::<Seq<char>>::empty()
    });
    assert(strs_model(all@) =~= head);
    let mut i: usize = 0;
    assert(strs_model(flags.custom_derives@.subrange(0, 0)) =~= Seq::<Seq<char>>::empty());
    assert(strs_model(all@) =~= head + strs_model(flags.custom_derives@.subrange(0, 0)));
    while i < flags.custom_derives.len()
        invariant
            i <= flags.custom_derives@.len(),
            strs_model(all@) == head + strs_model(flags.custom_derives@.subrange(0, i as int)),
        decreases flags.custom_derives@.len() - i,
    {
        let ghost allold = all@;
        let c = flags.custom_derives[i].clone();
        assert(c@ == flags.custom_derives@[i as int]@);
        all.push(c);
        proof {
            let lhs = strs_model(all@);
            let rhs = head + strs_model(flags.custom_derives@.subrange(0, i + 1 as int));
            assert(all@ == allold.push(c));
            assert(lhs.len() == all@.len());
            assert(strs_model(allold).len() == allold.len());
            assert(strs_model(flags.custom_derives@.subrange(0, i + 1 as int)).len() == i + 1);
            assert(lhs.len() == rhs.len());
            assert forall|k: int| 0 <= k < lhs.len() implies lhs[k] == rhs[k] by {
                if k < allold.len() {
                    assert(strs_model(allold)[k] == allold[k]@);
                    assert(lhs[k] == all@[k]@);
                } else {
                    assert(lhs[k] == all@[k]@);
                    assert(flags.custom_derives@.subrange(0, i + 1 as int)[k - head.len()]
                        == flags.custom_derives@[i as int]);
                }
            }
            assert(lhs =~= rhs);
        }
        i = i + 1;
    }
    assert(flags.custom_derives@.subrange(0, flags.custom_derives@.len() as int)
        =~= flags.custom_derives@);
    assert(head + strs_model(flags.custom_derives@) =~= seq!["Clone"@] + (if flags.debug {
        seq!["Debug"@]
    } else {
        Seq::<Seq<char>>::empty()
    }) + flags_model(*flags).custom_derives);
    dedup_strings(all)
}

// ---------------------------------------------------------------------------
// Field type inference.
// ---------------------------------------------------------------------------

/// The element type inferred for an array: the empty array and any array
/// whose first element is not a primitive fall back to the untyped element;
/// only the first element is inspected, the rest are assumed homogeneous.
pub open spec fn spec_elem_type(ms: Seq<ValueModel>) -> ElementType {
    if ms.len() == 0 {
        ElementType::AnyElem
    } else {
        match ms[0] {
            ValueModel::Str(_) => ElementType::StringElem,
            ValueModel::Num(_) => ElementType::NumberElem,
            ValueModel::Bool(_) => ElementType::BoolElem,
            _ => ElementType::AnyElem,
        }
    }
}

/// The type a field takes from its value's shape; `nested_name` is the name
/// an auxiliary type would get, used only where the value is an object.
pub open spec fn spec_field_type(m: ValueModel, nested_name: Seq<char>) -> TypeRefModel {
    match m {
        ValueModel::Str(_) => TypeRefModel::Str,
        ValueModel::Num(_) => TypeRefModel::Num,
        ValueModel::Bool(_) => TypeRefModel::Bool,
        ValueModel::Null => TypeRefModel::AnyOpt,
        ValueModel::Arr(ms) => TypeRefModel::SeqOf(spec_elem_type(ms)),
        ValueModel::Obj(_) => TypeRefModel::Ref(nested_name),
    }
}

/// The models of array elements, pointwise.
pub proof fn lemma_model_seq_props(s: Seq<JsonValue>)
    ensures
        model_seq(s).len() == s.len(),
        forall|i: int| 0 <= i < s.len() ==> #[trigger] model_seq(s)[i] == model(s[i]),
    decreases s.len(),
{
    if s.len() > 0 {
        lemma_model_seq_props(s.drop_last());
    }
}

/// The models of object entries, pointwise.
pub proof fn lemma_model_entries_props(s: Seq<(String, JsonValue)>)
    ensures
        model_entries(s).len() == s.len(),
        forall|i: int|
            0 <= i < s.len() ==> #[trigger] model_entries(s)[i] == (s[i].0@, model(s[i].1)),
    decreases s.len(),
{
    if s.len() > 0 {
        lemma_model_entries_props(s.drop_last());
    }
}

/// Infers the element type for an array of values from its first element.
pub fn infer_array_type(arr: &Vec<JsonValue>) -> (r: ElementType)
    ensures
        r == spec_elem_type(model_seq(arr@)),
{
    proof {
        lemma_model_seq_props(arr@);
    }
    if arr.len() == 0 {
        return ElementType::AnyElem;
    }
    match &arr[0] {
        JsonValue::Str(_) => ElementType::StringElem,
        JsonValue::Number(_) => ElementType::NumberElem,
        JsonValue::Boolean(_) => ElementType::BoolElem,
        _ => ElementType::AnyElem,
    }
}

// ---------------------------------------------------------------------------
// The generator.
// ---------------------------------------------------------------------------

/// The field generated for one entry.
pub open spec fn spec_field(key: Seq<char>, m: ValueModel, base: Seq<char>, f: FlagsModel) -> FieldModel {
    FieldModel {
        source_key: key,
        field_name: spec_sanitize(key),
        type_reference: spec_field_type(m, base + pascal_of(key)),
        alias: if f.use_serde_alias {
            Some(key)
        } else {
            None
        },
    }
}

/// The fields of the type generated for `entries` under `base`, and the
/// auxiliary types its object-valued entries give rise to, deeper auxiliary
/// types standing before their ancestors.
pub open spec fn spec_gen_fields(
    entries: Seq<(Seq<char>, ValueModel)>,
    base: Seq<char>,
    f: FlagsModel,
) -> (Seq<FieldModel>, Seq<TypeDefModel>)
    decreases entries,
    via spec_gen_fields_decreases
{
    if entries.len() == 0 {
        (Seq::empty(), Seq::empty())
    } else {
        let prev = spec_gen_fields(entries.drop_last(), base, f);
        let key = entries.last().0;
        let m = entries.last().1;
        let new_auxs = match m {
            ValueModel::Obj(es) => {
                let sub = spec_gen_fields(es, base + pascal_of(key), f);
                sub.1.push(
                    TypeDefModel {
                        name: base + pascal_of(key),
                        fields: sub.0,
                        capabilities: spec_capabilities(f),
                        rename_style: f.rename_all,
                    },
                )
            },
            _ => Seq::empty(),
        };
        (prev.0.push(spec_field(key, m, base, f)), prev.1 + new_auxs)
    }
}

/// Establishes that an entry list outweighs its last entry's object value.
#[via_fn]
proof fn spec_gen_fields_decreases(
    entries: Seq<(Seq<char>, ValueModel)>,
    base: Seq<char>,
    f: FlagsModel,
) {
    if entries.len() > 0 {
        assert(decreases_to!(entries => entries[entries.len() - 1]));
        assert(decreases_to!(entries[entries.len() - 1] => entries[entries.len() - 1].1));
    }
}

/// The type generated for `entries` under the name `base`, and its auxiliary
/// types in emission order.
pub open spec fn spec_generate(
    entries: Seq<(Seq<char>, ValueModel)>,
    base: Seq<char>,
    f: FlagsModel,
) -> (TypeDefModel, Seq<TypeDefModel>) {
    let r = spec_gen_fields(entries, base, f);
    (
        TypeDefModel {
            name: base,
            fields: r.0,
            capabilities: spec_capabilities(f),
            rename_style: f.rename_all,
        },
        r.1,
    )
}

/// Generates the fields for `entries` and collects the auxiliary types of its
/// nested objects.
fn gen_fields(entries: &Vec<(String, JsonValue)>, base: &String, flags: &JsonMacroFlags) -> (r: (
    Vec<FieldDefinition>,
    Vec<TypeDefinition>,
))
    ensures
        fields_model(r.0@) == spec_gen_fields(
            model_entries(entries@),
            base@,
            flags_model(*flags),
        ).0,
        type_defs_model(r.1@) == spec_gen_fields(
            model_entries(entries@),
            base@,
            flags_model(*flags),
        ).1,
    decreases entries@, 0int,
{
    let ghost fm = flags_model(*flags);
    let mut fields: Vec<FieldDefinition> = Vec::new();
    let mut auxs: Vec<TypeDefinition> = Vec::new();
    let mut i: usize = 0;
    proof {
        lemma_model_entries_props(entries@);
        assert(model_entries(entries@.subrange(0, 0)) =~= Seq::<(Seq<char>, ValueModel)>::empty());
        assert(fields_model(fields@) =~= Seq::<FieldModel>::empty());
        assert(type_defs_model(auxs@) =~= Seq::<TypeDefModel>::empty());
    }
    while i < entries.len()
        invariant
            i <= entries@.len(),
            fm == flags_model(*flags),
            fields_model(fields@) == spec_gen_fields(
                model_entries(entries@.subrange(0, i as int)),
                base@,
                fm,
            ).0,
            type_defs_model(auxs@) == spec_gen_fields(
                model_entries(entries@.subrange(0, i as int)),
                base@,
                fm,
            ).1,
        decreases entries@.len() - i,
    {
        let ghost pre = model_entries(entries@.subrange(0, i as int));
        let ghost post = model_entries(entries@.subrange(0, i + 1 as int));
        proof {
            lemma_model_entries_props(entries@.subrange(0, i as int));
            lemma_model_entries_props(entries@.subrange(0, i + 1 as int));
            lemma_model_entries_props(entries@);
            assert(post.drop_last() =~= pre);
            assert(post.last() == (entries@[i as int].0@, model(entries@[i as int].1)));
        }
        let key: &String = &entries[i].0;
        let field_name = sanitize_identifier(key.as_str());
        let ghost vm = model(entries@[i as int].1);
        let mut pascal = base.clone();
        let pas = to_pascal_case(key.as_str());
        pascal.append(pas.as_str());
        assert(pascal@ == base@ + pascal_of(key@));
        let type_reference: TypeReference = match &entries[i].1 {
            JsonValue::Str(_) => TypeReference::StringType,
            JsonValue::Number(_) => TypeReference::NumberType,
            JsonValue::Boolean(_) => TypeReference::BoolType,
            JsonValue::Null => TypeReference::AnyOptional,
            JsonValue::Array(arr) => TypeReference::Sequence(infer_array_type(arr)),
            JsonValue::Object(es) => {
                proof {
                    assert(decreases_to!(entries@ => entries@[i as int]));
                    assert(decreases_to!(entries@[i as int] => entries@[i as int].1));
                    assert(decreases_to!(entries@[i as int].1 => es@));
                }
                let (sub_fields, mut sub_auxs) = gen_fields(es, &pascal, flags);
                let ghost sub_auxs_m = type_defs_model(sub_auxs@);
                let ghost old_auxs = type_defs_model(auxs@);
                auxs.append(&mut sub_auxs);
                let nested = TypeDefinition {
                    name: pascal.clone(),
                    fields: sub_fields,
                    capabilities: build_capabilities(flags),
                    rename_style: flags.rename_all,
                };
                let ghost nested_m = type_def_model(nested);
                auxs.push(nested);
                proof {
                    assert(type_defs_model(auxs@) =~= old_auxs + sub_auxs_m.push(nested_m));
                }
                TypeReference::Reference(pascal.clone())
            },
        };
        let alias: Option<String> = if flags.use_serde_alias {
            Some(key.clone())
        } else {
            None
        };
        let fd = FieldDefinition {
            source_key: key.clone(),
            field_name,
            type_reference,
            alias,
        };
        let ghost fdm = field_model(fd);
        proof {
            assert(fdm =~~= spec_field(key@, vm, base@, fm));
        }
        fields.push(fd);
        proof {
            assert(fields_model(fields@) =~= spec_gen_fields(pre, base@, fm).0.push(fdm));
            assert(type_defs_model(auxs@) =~= spec_gen_fields(post, base@, fm).1);
            assert(fields_model(fields@) =~= spec_gen_fields(post, base@, fm).0);
        }
        i = i + 1;
    }
    assert(entries@.subrange(0, entries@.len() as int) =~= entries@);
    (fields, auxs)
}

/// Generates the type definition for an invocation's entries under
/// `base_name`, together with the auxiliary types of its nested objects,
/// deeper types before their ancestors. Every definition carries the same
/// capabilities and rename style, each field's name is its sanitized key, its
/// type is inferred from its value's shape, and its alias is its source key
/// exactly where alias emission is on.
pub fn generate_structs(input: &JsonMacroInput, base_name: &String) -> (r: (
    TypeDefinition,
    Vec<TypeDefinition>,
))
    ensures
        type_def_model(r.0) == spec_generate(
            model_entries(input.content.entries@),
            base_name@,
            flags_model(input.flags),
        ).0,
        type_defs_model(r.1@) == spec_generate(
            model_entries(input.content.entries@),
            base_name@,
            flags_model(input.flags),
        ).1,
{
    let (fields, auxs) = gen_fields(&input.content.entries, base_name, &input.flags);
    let main = TypeDefinition {
        name: base_name.clone(),
        fields,
        capabilities: build_capabilities(&input.flags),
        rename_style: input.flags.rename_all,
    };
    proof {
        assert(type_def_model(main) =~~= spec_generate(
            model_entries(input.content.entries@),
            base_name@,
            flags_model(input.flags),
        ).0);
    }
    (main, auxs)
}

// ---------------------------------------------------------------------------
// Laws of the generator.
// ---------------------------------------------------------------------------

/// Every generated field corresponds to its entry: same source key in order,
/// the sanitized key as its name, the type its value's shape dictates, and
/// the alias policy applied uniformly.
pub proof fn lemma_field_correspondence(
    entries: Seq<(Seq<char>, ValueModel)>,
    base: Seq<char>,
    f: FlagsModel,
)
    ensures
        spec_gen_fields(entries, base, f).0.len() == entries.len(),
        forall|i: int|
            0 <= i < entries.len() ==> #[trigger] spec_gen_fields(entries, base, f).0[i]
                == spec_field(entries[i].0, entries[i].1, base, f),
    decreases entries.len(),
{
    if entries.len() > 0 {
        lemma_field_correspondence(entries.drop_last(), base, f);
    }
}

/// Alias fidelity: when alias emission is enabled, every generated field's
/// alias equals its original source key exactly, whatever rename style is
/// active.
pub proof fn lemma_alias_fidelity(
    entries: Seq<(Seq<char>, ValueModel)>,
    base: Seq<char>,
    f: FlagsModel,
)
    requires
        f.use_serde_alias,
    ensures
        forall|i: int|
            0 <= i < spec_gen_fields(entries, base, f).0.len()
                ==> (#[trigger] spec_gen_fields(entries, base, f).0[i]).alias == Some(
                spec_gen_fields(entries, base, f).0[i].source_key,
            ),
{
    lemma_field_correspondence(entries, base, f);
}

/// Configuration is never overridden per nested type: every auxiliary type
/// carries exactly the capabilities and rename style of the invocation.
pub proof fn lemma_config_uniform(
    entries: Seq<(Seq<char>, ValueModel)>,
    base: Seq<char>,
    f: FlagsModel,
)
    ensures
        forall|i: int|
            0 <= i < spec_gen_fields(entries, base, f).1.len()
                ==> (#[trigger] spec_gen_fields(entries, base, f).1[i]).capabilities
                == spec_capabilities(f) && spec_gen_fields(entries, base, f).1[i].rename_style
                == f.rename_all,
    decreases entries,
{
    if entries.len() > 0 {
        lemma_config_uniform(entries.drop_last(), base, f);
        let key = entries.last().0;
        let m = entries.last().1;
        match m {
            ValueModel::Obj(es) => {
                assert(decreases_to!(entries => entries[entries.len() - 1]));
                assert(decreases_to!(entries[entries.len() - 1] => entries[entries.len() - 1].1));
                lemma_config_uniform(es, base + pascal_of(key), f);
            },
            _ => {},
        }
    }
}

} // verus!
