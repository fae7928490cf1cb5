//! The value model and the DSL parser: a recursive-descent parser over
//! characters that turns an invocation (type name, flags, value tree) into a
//! [`JsonMacroInput`].

use vstd::prelude::*;

verus! {

/// A field-naming convention applied uniformly to all generated type fields.
#[derive(Clone, Copy, PartialEq, Eq, Structural, Debug)]
pub enum RenameStyle {
    Camel,
    Snake,
    Pascal,
}

/// The serialization attribute token of a rename style.
pub open spec fn spec_style_text(s: RenameStyle) -> Seq<char> {
    match s {
        RenameStyle::Camel => "camelCase"@,
        RenameStyle::Snake => "snake_case"@,
        RenameStyle::Pascal => "PascalCase"@,
    }
}

impl RenameStyle {
    /// The attribute token naming this convention: `camelCase`, `snake_case`
    /// or `PascalCase`.
    pub fn text(&self) -> (r: String)
        ensures
            r@ == spec_style_text(*self),
    {
        match self {
            RenameStyle::Camel => String::from_str("camelCase"),
            RenameStyle::Snake => String::from_str("snake_case"),
            RenameStyle::Pascal => String::from_str("PascalCase"),
        }
    }
}

/// The resolved configuration of one invocation.
pub struct JsonMacroFlags {
    /// Add a debuggable capability to every generated type.
    pub debug: bool,
    /// The field-naming convention, where one was chosen; the last flag wins.
    pub rename_all: Option<RenameStyle>,
    /// Emit the lazily initialized example constant.
    pub store_json_value: bool,
    /// Emit the original source key as an alias on every field (on by default).
    pub use_serde_alias: bool,
    /// Extra capability tokens collected from `@derive(...)`.
    pub custom_derives: Vec<String>,
}

/// The mathematical model of a configuration.
#[verifier::ext_equal]
pub struct FlagsModel {
    pub debug: bool,
    pub rename_all: Option<RenameStyle>,
    pub store_json_value: bool,
    pub use_serde_alias: bool,
    pub custom_derives: Seq<Seq<char>>,
}

/// The character sequences of a list of strings.
pub open spec fn strs_model(s: Seq<String>) -> Seq<Seq<char>> {
    s.map_values(|t: String| t@)
}

/// The model of a configuration record.
pub open spec fn flags_model(f: JsonMacroFlags) -> FlagsModel {
    FlagsModel {
        debug: f.debug,
        rename_all: f.rename_all,
        store_json_value: f.store_json_value,
        use_serde_alias: f.use_serde_alias,
        custom_derives: strs_model(f.custom_derives@),
    }
}

/// The configuration before any flag is seen: aliases on, everything else off.
pub open spec fn default_flags_model() -> FlagsModel {
    FlagsModel {
        debug: false,
        rename_all: None,
        store_json_value: false,
        use_serde_alias: true,
        custom_derives: Seq::empty(),
    }
}

impl Default for JsonMacroFlags {
    /// The configuration before any flag is seen.
    fn default() -> (r: Self)
        ensures
            flags_model(r) == default_flags_model(),
    {
        let r = JsonMacroFlags {
            debug: false,
            rename_all: None,
            store_json_value: false,
            use_serde_alias: true,
            custom_derives: Vec::new(),
        };
        assert(flags_model(r) =~~= default_flags_model());
        r
    }
}

/// Why an invocation was rejected; `pos` is the character offset of the
/// offending token.
#[derive(Debug)]
pub enum ParseError {
    /// Malformed invocation: missing brace, key, separator or literal.
    Syntax { pos: usize },
    /// An `@flag` token outside the recognized set; carries the flag's name.
    UnknownFlag { pos: usize, flag: String },
    /// `@derive` without a parenthesized capability list.
    MalformedDerive { pos: usize },
    /// A literal that is not a string, number or boolean.
    UnsupportedLiteral { pos: usize },
    /// The root value is not an object.
    NonObjectRoot { pos: usize },
}

/// The diagnostic text of an error; the unknown-flag message names the
/// offending token and enumerates the valid flag set.
pub open spec fn spec_message(e: ParseError) -> Seq<char> {
    match e {
        ParseError::Syntax { .. } => "malformed invocation"@,
        ParseError::UnknownFlag { flag, .. } => "Unknown flag: "@ + flag@
            + " Supported flags: @debug @camel @snake @pascal @store_json @no_alias @derive(...)"@,
        ParseError::MalformedDerive { .. } => "expected @derive(...)"@,
        ParseError::UnsupportedLiteral { .. } => "Unsupported literal type"@,
        ParseError::NonObjectRoot { .. } => "the root value must be an object"@,
    }
}

impl ParseError {
    /// The diagnostic text of this error.
    pub fn message(&self) -> (r: String)
        ensures
            r@ == spec_message(*self),
    {
        match self {
            ParseError::Syntax { .. } => String::from_str("malformed invocation"),
            ParseError::UnknownFlag { flag, .. } => {
                let mut m = String::from_str("Unknown flag: ");
                m.append(flag.as_str());
                m.append(
                    " Supported flags: @debug @camel @snake @pascal @store_json @no_alias @derive(...)",
                );
                m
            },
            ParseError::MalformedDerive { .. } => String::from_str("expected @derive(...)"),
            ParseError::UnsupportedLiteral { .. } => String::from_str("Unsupported literal type"),
            ParseError::NonObjectRoot { .. } => String::from_str("the root value must be an object"),
        }
    }
}

/// Parsed literal data: the value tree an invocation describes.
///
/// Numbers are held as canonical decimal text (`"23"` parses to `23.0`): the
/// generator only reads the kind of a number, and the example embedder only
/// needs its canonical rendering.
pub enum JsonValue {
    Str(String),
    Number(String),
    Boolean(bool),
    Null,
    Array(Vec<JsonValue>),
    Object(Vec<(String, JsonValue)>),
}

/// The mathematical model of a [`JsonValue`]: the same tree over sequences.
#[verifier::ext_equal]
pub enum ValueModel {
    Str(Seq<char>),
    Num(Seq<char>),
    Bool(bool),
    Null,
    Arr(Seq<ValueModel>),
    Obj(Seq<(Seq<char>, ValueModel)>),
}

/// The model of a value: each string replaced by its character sequence.
pub open spec fn model(v: JsonValue) -> ValueModel
    decreases v,
{
    match v {
        JsonValue::Str(s) => ValueModel::Str(s@),
        JsonValue::Number(n) => ValueModel::Num(n@),
        JsonValue::Boolean(b) => ValueModel::Bool(b),
        JsonValue::Null => ValueModel::Null,
        JsonValue::Array(elems) => ValueModel::Arr(model_seq(elems@)),
        JsonValue::Object(entries) => ValueModel::Obj(model_entries(entries@)),
    }
}

/// The models of the elements of an array.
pub open spec fn model_seq(s: Seq<JsonValue>) -> Seq<ValueModel>
    decreases s,
{
    if s.len() == 0 {
        Seq::empty()
    } else {
        model_seq(s.drop_last()).push(model(s.last()))
    }
}

/// The models of the entries of an object.
pub open spec fn model_entries(s: Seq<(String, JsonValue)>) -> Seq<(Seq<char>, ValueModel)>
    decreases s,
{
    if s.len() == 0 {
        Seq::empty()
    } else {
        model_entries(s.drop_last()).push((s.last().0@, model(s.last().1)))
    }
}

// ---------------------------------------------------------------------------
// Lexical layer: character classes and token-level spec lexers.
// ---------------------------------------------------------------------------

/// Whitespace between tokens.
pub open spec fn is_ws(c: char) -> bool {
    c == ' ' || c == '\t' || c == '\n' || c == '\r'
}

/// A decimal digit.
pub open spec fn is_digit(c: char) -> bool {
    '0' <= c && c <= '9'
}

/// A character that may start an identifier.
pub open spec fn is_ident_start(c: char) -> bool {
    ('a' <= c && c <= 'z') || ('A' <= c && c <= 'Z') || c == '_'
}

/// A character that may continue an identifier.
pub open spec fn is_ident_char(c: char) -> bool {
    is_ident_start(c) || is_digit(c)
}

/// The first position at or after `i` that does not hold whitespace.
pub open spec fn ws_end(s: Seq<char>, i: int) -> int
    decreases s.len() - i,
{
    if 0 <= i < s.len() && is_ws(s[i]) {
        ws_end(s, i + 1)
    } else {
        i
    }
}

/// The first position at or after `i` that does not hold a digit.
pub open spec fn digits_end(s: Seq<char>, i: int) -> int
    decreases s.len() - i,
{
    if 0 <= i < s.len() && is_digit(s[i]) {
        digits_end(s, i + 1)
    } else {
        i
    }
}

/// The first position at or after `i` that does not hold an identifier
/// character.
pub open spec fn ident_end(s: Seq<char>, i: int) -> int
    decreases s.len() - i,
{
    if 0 <= i < s.len() && is_ident_char(s[i]) {
        ident_end(s, i + 1)
    } else {
        i
    }
}

/// A nonempty identifier token.
pub open spec fn is_ident_seq(s: Seq<char>) -> bool {
    s.len() > 0 && is_ident_start(s[0]) && forall|k: int| 0 <= k < s.len() ==> is_ident_char(#[trigger] s[k])
}

/// What an escape character after a backslash denotes, where it is recognized.
pub open spec fn unescape(c: char) -> Option<char> {
    if c == '"' {
        Some('"')
    } else if c == '\\' {
        Some('\\')
    } else if c == 'n' {
        Some('\n')
    } else if c == 't' {
        Some('\t')
    } else if c == 'r' {
        Some('\r')
    } else {
        None
    }
}

/// A character that may stand unescaped inside a string literal.
pub open spec fn is_plain_str_char(c: char) -> bool {
    c != '"' && c != '\\' && (c as u32 >= 32 || c == '\n' || c == '\t' || c == '\r')
}

/// Reads a string literal body starting just after the opening quote:
/// the decoded content and the position just after the closing quote,
/// or `None` where the literal is malformed or unterminated.
pub open spec fn lex_str_body(s: Seq<char>, i: int) -> Option<(Seq<char>, int)>
    decreases s.len() - i,
{
    if i < 0 || i >= s.len() {
        None
    } else if s[i] == '"' {
        Some((Seq::empty(), i + 1))
    } else if s[i] == '\\' {
        if i + 1 < s.len() && unescape(s[i + 1]) is Some {
            match lex_str_body(s, i + 2) {
                Some((t, j)) => Some((seq![unescape(s[i + 1])->0] + t, j)),
                None => None,
            }
        } else {
            None
        }
    } else if is_plain_str_char(s[i]) {
        match lex_str_body(s, i + 1) {
            Some((t, j)) => Some((seq![s[i]] + t, j)),
            None => None,
        }
    } else {
        None
    }
}

/// The integer part of a canonical number: leading zeros stripped, except a
/// lone zero.
pub open spec fn strip_leading_zeros(d: Seq<char>) -> Seq<char>
    decreases d.len(),
{
    if d.len() > 1 && d[0] == '0' {
        strip_leading_zeros(d.drop_first())
    } else {
        d
    }
}

/// The fraction part of a canonical number: trailing zeros stripped, except a
/// lone zero.
pub open spec fn strip_trailing_zeros(d: Seq<char>) -> Seq<char>
    decreases d.len(),
{
    if d.len() > 1 && d.last() == '0' {
        strip_trailing_zeros(d.drop_last())
    } else {
        d
    }
}

/// The canonical decimal text of a number literal with integer digits `ip`
/// and fraction digits `fp` (empty where the literal had no fraction): both
/// literal forms collapse to one decimal representation, so `23` and `23.0`
/// render alike.
pub open spec fn canon_num(ip: Seq<char>, fp: Seq<char>) -> Seq<char> {
    strip_leading_zeros(ip) + seq!['.'] + (if fp.len() == 0 {
        seq!['0']
    } else {
        strip_trailing_zeros(fp)
    })
}

// ---------------------------------------------------------------------------
// Exec token readers, each exact against its spec lexer.
// ---------------------------------------------------------------------------

/// Relies on str::chars: yields exactly the characters of the string, in order.
#[verifier::external_body]
pub(crate) fn chars_of(s: &str) -> (r: Vec<char>)
    ensures
        r@ == s@,
{
    s.chars().collect()
}

/// Relies on String::from_iter over chars: builds the string holding exactly
/// the given characters, in order.
#[verifier::external_body]
pub(crate) fn string_from_chars(cs: &Vec<char>) -> (r: String)
    ensures
        r@ == cs@,
{
    cs.iter().collect()
}

/// Skips whitespace from `i`.
fn skip_ws(cs: &Vec<char>, i: usize) -> (j: usize)
    requires
        i <= cs@.len(),
    ensures
        j == ws_end(cs@, i as int),
        i <= j <= cs@.len(),
{
    let mut p = i;
    while p < cs.len() && (cs[p] == ' ' || cs[p] == '\t' || cs[p] == '\n' || cs[p] == '\r')
        invariant
            i <= p <= cs@.len(),
            ws_end(cs@, i as int) == ws_end(cs@, p as int),
        decreases cs@.len() - p,
    {
        p = p + 1;
    }
    p
}

/// The characters of `cs` from `a` to `b`.
fn copy_range(cs: &Vec<char>, a: usize, b: usize) -> (r: Vec<char>)
    requires
        a <= b <= cs@.len(),
    ensures
        r@ == cs@.subrange(a as int, b as int),
{
    let mut out: Vec<char> = Vec::new();
    let mut p = a;
    while p < b
        invariant
            a <= p <= b <= cs@.len(),
            out@ == cs@.subrange(a as int, p as int),
        decreases b - p,
    {
        out.push(cs[p]);
        assert(out@ =~= cs@.subrange(a as int, p + 1 as int));
        p = p + 1;
    }
    out
}

/// Whether a character may continue an identifier.
fn ident_char(d: char) -> (b: bool)
    ensures
        b == is_ident_char(d),
{
    ('a' <= d && d <= 'z') || ('A' <= d && d <= 'Z') || d == '_' || ('0' <= d && d <= '9')
}

/// Reads an identifier token at `i`; `None` where none starts there.
fn read_ident(cs: &Vec<char>, i: usize) -> (r: Option<(String, usize)>)
    requires
        i <= cs@.len(),
    ensures
        match r {
            Some((t, j)) => {
                &&& i < j <= cs@.len()
                &&& j == ident_end(cs@, i as int)
                &&& t@ == cs@.subrange(i as int, j as int)
                &&& is_ident_seq(t@)
            },
            None => i == cs@.len() || !is_ident_start(cs@[i as int]),
        },
{
    if i >= cs.len() {
        return None;
    }
    let c = cs[i];
    if !(('a' <= c && c <= 'z') || ('A' <= c && c <= 'Z') || c == '_') {
        return None;
    }
    let mut p = i + 1;
    while p < cs.len() && ident_char(cs[p])
        invariant
            i < p <= cs@.len(),
            ident_end(cs@, i as int) == ident_end(cs@, p as int),
            forall|k: int| i <= k < p ==> is_ident_char(#[trigger] cs@[k]),
        decreases cs@.len() - p,
    {
        p = p + 1;
    }
    let name = string_from_chars(&copy_range(cs, i, p));
    assert(is_ident_seq(name@));
    Some((name, p))
}

/// Reads the digit run starting at `i`.
fn read_digits(cs: &Vec<char>, i: usize) -> (j: usize)
    requires
        i <= cs@.len(),
    ensures
        j == digits_end(cs@, i as int),
        i <= j <= cs@.len(),
{
    let mut p = i;
    while p < cs.len() && '0' <= cs[p] && cs[p] <= '9'
        invariant
            i <= p <= cs@.len(),
            digits_end(cs@, i as int) == digits_end(cs@, p as int),
        decreases cs@.len() - p,
    {
        p = p + 1;
    }
    p
}

/// Strips leading zeros from a digit run, keeping a lone zero.
fn strip_leading(d: Vec<char>) -> (r: Vec<char>)
    requires
        d@.len() > 0,
    ensures
        r@ == strip_leading_zeros(d@),
{
    let mut k: usize = 0;
    assert(d@.subrange(0, d@.len() as int) =~= d@);
    while k < d.len() - 1 && d[k] == '0'
        invariant
            k < d@.len(),
            strip_leading_zeros(d@) == strip_leading_zeros(d@.subrange(k as int, d@.len() as int)),
        decreases d@.len() - k,
    {
        assert(d@.subrange(k as int, d@.len() as int).drop_first() =~= d@.subrange(
            k + 1 as int,
            d@.len() as int,
        ));
        k = k + 1;
    }
    let r = copy_range(&d, k, d.len());
    assert(d@.subrange(k as int, d@.len() as int) == strip_leading_zeros(
        d@.subrange(k as int, d@.len() as int),
    ));
    r
}

/// Strips trailing zeros from a digit run, keeping a lone zero.
fn strip_trailing(d: Vec<char>) -> (r: Vec<char>)
    ensures
        r@ == strip_trailing_zeros(d@),
{
    let mut e: usize = d.len();
    assert(d@.subrange(0, e as int) =~= d@);
    while e > 1 && d[e - 1] == '0'
        invariant
            e <= d@.len(),
            strip_trailing_zeros(d@) == strip_trailing_zeros(d@.subrange(0, e as int)),
        decreases e,
    {
        assert(d@.subrange(0, e as int).drop_last() =~= d@.subrange(0, e - 1 as int));
        e = e - 1;
    }
    let r = copy_range(&d, 0, e);
    assert(d@.subrange(0, e as int) == strip_trailing_zeros(d@.subrange(0, e as int)));
    r
}

/// Reads a number literal at `i` (digits, optionally a point and digits) and
/// canonicalizes it.
fn read_number(cs: &Vec<char>, i: usize) -> (r: (String, usize))
    requires
        i < cs@.len(),
        is_digit(cs@[i as int]),
    ensures
        ({
            let d1 = digits_end(cs@, i as int);
            if d1 + 1 < cs@.len() && cs@[d1] == '.' && is_digit(cs@[d1 + 1]) {
                let d2 = digits_end(cs@, d1 + 1);
                r.1 == d2 && r.0@ == canon_num(
                    cs@.subrange(i as int, d1),
                    cs@.subrange(d1 + 1, d2),
                )
            } else {
                r.1 == d1 && r.0@ == canon_num(cs@.subrange(i as int, d1), Seq::empty())
            }
        }),
        i < r.1 <= cs@.len(),
{
    let d1 = read_digits(cs, i);
    assert(digits_end(cs@, i as int) == digits_end(cs@, i + 1 as int));
    assert(cs@.subrange(i as int, d1 as int).len() > 0) by {
        lemma_digits_end_ge(cs@, i + 1 as int);
    }
    let ip = strip_leading(copy_range(cs, i, d1));
    let mut out = ip;
    out.push('.');
    assert(out@ =~= strip_leading_zeros(cs@.subrange(i as int, d1 as int)) + seq!['.']);
    if d1 < cs.len() && cs[d1] == '.' && d1 + 1 < cs.len() && '0' <= cs[d1 + 1] && cs[d1 + 1]
        <= '9' {
        let d2 = read_digits(cs, d1 + 1);
        assert(digits_end(cs@, d1 + 1 as int) == digits_end(cs@, d1 + 2 as int));
        assert(cs@.subrange(d1 + 1 as int, d2 as int).len() > 0) by {
            lemma_digits_end_ge(cs@, d1 + 2 as int);
        }
        let fp = strip_trailing(copy_range(cs, d1 + 1, d2));
        let mut p: usize = 0;
        assert(fp@.subrange(0, 0) =~= Seq::<char>::empty());
        assert(out@ =~= strip_leading_zeros(cs@.subrange(i as int, digits_end(cs@, i as int)))
            + seq!['.'] + fp@.subrange(0, 0));
        while p < fp.len()
            invariant
                p <= fp@.len(),
                out@ == strip_leading_zeros(cs@.subrange(i as int, digits_end(cs@, i as int)))
                    + seq!['.'] + fp@.subrange(0, p as int),
            decreases fp@.len() - p,
        {
            out.push(fp[p]);
            assert(out@ =~= strip_leading_zeros(cs@.subrange(i as int, digits_end(cs@, i as int)))
                + seq!['.'] + fp@.subrange(0, p + 1 as int));
            p = p + 1;
        }
        assert(fp@.subrange(0, fp@.len() as int) =~= fp@);
        assert(fp@.len() > 0) by {
            lemma_strip_trailing_len(cs@.subrange(d1 + 1 as int, d2 as int));
        }
        assert(out@ =~= canon_num(
            cs@.subrange(i as int, digits_end(cs@, i as int)),
            cs@.subrange(d1 + 1, digits_end(cs@, d1 + 1)),
        ));
        (string_from_chars(&out), d2)
    } else {
        out.push('0');
        assert(out@ =~= canon_num(cs@.subrange(i as int, digits_end(cs@, i as int)), Seq::empty()));
        (string_from_chars(&out), d1)
    }
}

/// The digit run starting at `i` ends no earlier than `i`.
proof fn lemma_digits_end_ge(s: Seq<char>, i: int)
    requires
        0 <= i <= s.len(),
    ensures
        i <= digits_end(s, i) <= s.len(),
    decreases s.len() - i,
{
    if i < s.len() && is_digit(s[i]) {
        lemma_digits_end_ge(s, i + 1);
    }
}

/// A stripped digit run is never empty.
proof fn lemma_strip_trailing_len(d: Seq<char>)
    requires
        d.len() > 0,
    ensures
        strip_trailing_zeros(d).len() > 0,
    decreases d.len(),
{
    if d.len() > 1 && d.last() == '0' {
        lemma_strip_trailing_len(d.drop_last());
    }
}

/// Reads a string literal whose opening quote stands at `i`.
fn read_string(cs: &Vec<char>, i: usize) -> (r: Result<(String, usize), ParseError>)
    requires
        i < cs@.len(),
        cs@[i as int] == '"',
    ensures
        match r {
            Ok((t, j)) => lex_str_body(cs@, i + 1) == Some((t@, j as int)) && i < j <= cs@.len(),
            Err(e) => lex_str_body(cs@, i + 1) is None && e matches ParseError::Syntax { .. },
        },
{
    let ghost s = cs@;
    let n = cs.len();
    let mut out: Vec<char> = Vec::new();
    let mut p = i + 1;
    loop
        invariant
            i < p <= s.len(),
            cs@ == s,
            n == s.len(),
            lex_str_body(s, i + 1) == lex_continue(out@, lex_str_body(s, p as int)),
        decreases s.len() - p,
    {
        if p >= n {
            return Err(ParseError::Syntax { pos: p });
        }
        let c = cs[p];
        if c == '"' {
            assert(lex_str_body(s, p as int) == Some((Seq::<char>::empty(), p + 1 as int)));
            assert(out@ + Seq::<char>::empty() =~= out@);
            return Ok((string_from_chars(&out), p + 1));
        } else if c == '\\' {
            if p + 1 >= cs.len() {
                return Err(ParseError::Syntax { pos: p });
            }
            let e = cs[p + 1];
            let u: char = if e == '"' {
                '"'
            } else if e == '\\' {
                '\\'
            } else if e == 'n' {
                '\n'
            } else if e == 't' {
                '\t'
            } else if e == 'r' {
                '\r'
            } else {
                return Err(ParseError::Syntax { pos: p });
            };
            assert(unescape(s[p as int + 1]) == Some(u));
            proof {
                lemma_lex_continue_push(out@, u, s, p as int, p + 2);
            }
            out.push(u);
            p = p + 2;
        } else if c != '"' && c != '\\' && (c as u32 >= 32 || c == '\n' || c == '\t' || c == '\r') {
            proof {
                lemma_lex_continue_push(out@, c, s, p as int, p + 1);
            }
            out.push(c);
            p = p + 1;
        } else {
            return Err(ParseError::Syntax { pos: p });
        }
    }
}

/// Prepends already-read content to the rest of a string literal body.
pub open spec fn lex_continue(acc: Seq<char>, rest: Option<(Seq<char>, int)>) -> Option<
    (Seq<char>, int),
> {
    match rest {
        Some((t, j)) => Some((acc + t, j)),
        None => None,
    }
}

/// One step of reading a string literal body: consuming one (possibly
/// escaped) character keeps the continuation equation.
proof fn lemma_lex_continue_push(acc: Seq<char>, u: char, s: Seq<char>, p: int, q: int)
    requires
        0 <= p < s.len(),
        lex_str_body(s, p) == lex_continue(seq![u], lex_str_body(s, q)),
    ensures
        lex_continue(acc, lex_str_body(s, p)) == lex_continue(acc.push(u), lex_str_body(s, q)),
{
    match lex_str_body(s, q) {
        Some((t, j)) => {
            assert(acc + (seq![u] + t) =~= acc.push(u) + t);
        },
        None => {},
    }
}

// ---------------------------------------------------------------------------
// The grammar relation: which character span reads as which value. The
// grammar is deterministic, so validity of a span and its end position are
// two spec functions, `*_ok` and `*_end`, defined side by side.
// ---------------------------------------------------------------------------

/// The text of `s` starting at `i` reads as the value `m`: string, number and
/// boolean literals as the lexers above demand, arrays and objects
/// recursively with comma-separated members and an optional trailing comma.
/// There is no production for `Null`: a null value never arises from text.
pub open spec fn value_ok(m: ValueModel, s: Seq<char>, i: int) -> bool
    decreases m, 3int,
{
    match m {
        ValueModel::Str(t) => 0 <= i < s.len() && s[i] == '"' && match lex_str_body(s, i + 1) {
            Some((t2, _)) => t2 == t,
            None => false,
        },
        ValueModel::Num(c) => 0 <= i < s.len() && is_digit(s[i]) && ({
            let d1 = digits_end(s, i);
            if d1 + 1 < s.len() && s[d1] == '.' && is_digit(s[d1 + 1]) {
                c == canon_num(s.subrange(i, d1), s.subrange(d1 + 1, digits_end(s, d1 + 1)))
            } else {
                c == canon_num(s.subrange(i, d1), Seq::empty())
            }
        }),
        ValueModel::Bool(b) => if b {
            0 <= i && i + 4 <= s.len() && s[i] == 't' && s[i + 1] == 'r' && s[i + 2] == 'u' && s[i
                + 3] == 'e' && (i + 4 == s.len() || !is_ident_char(s[i + 4]))
        } else {
            0 <= i && i + 5 <= s.len() && s[i] == 'f' && s[i + 1] == 'a' && s[i + 2] == 'l' && s[i
                + 3] == 's' && s[i + 4] == 'e' && (i + 5 == s.len() || !is_ident_char(s[i + 5]))
        },
        ValueModel::Null => false,
        ValueModel::Arr(ms) => 0 <= i < s.len() && s[i] == '[' && elems_ok(ms, s, i + 1),
        ValueModel::Obj(es) => 0 <= i < s.len() && s[i] == '{' && entries_ok(es, s, i + 1),
    }
}

/// Where the span that reads as `m` from `i` ends (meaningful only where
/// [`value_ok`] holds).
pub open spec fn value_end(m: ValueModel, s: Seq<char>, i: int) -> int
    decreases m, 3int,
{
    match m {
        ValueModel::Str(_) => match lex_str_body(s, i + 1) {
            Some((_, j)) => j,
            None => i,
        },
        ValueModel::Num(_) => ({
            let d1 = digits_end(s, i);
            if d1 + 1 < s.len() && s[d1] == '.' && is_digit(s[d1 + 1]) {
                digits_end(s, d1 + 1)
            } else {
                d1
            }
        }),
        ValueModel::Bool(b) => if b {
            i + 4
        } else {
            i + 5
        },
        ValueModel::Null => i,
        ValueModel::Arr(ms) => elems_end(ms, s, i + 1),
        ValueModel::Obj(es) => entries_end(es, s, i + 1),
    }
}

/// From `k` (just after `[` or a separating comma): the remaining elements
/// `ms`, then the closing bracket.
pub open spec fn elems_ok(ms: Seq<ValueModel>, s: Seq<char>, k: int) -> bool
    decreases ms, 1int,
{
    if ms.len() == 0 {
        0 <= ws_end(s, k) < s.len() && s[ws_end(s, k)] == ']'
    } else {
        value_ok(ms[0], s, ws_end(s, k)) && elems_sep_ok(ms, s, value_end(ms[0], s, ws_end(s, k)))
    }
}

/// After one element ending at `j1`: a separating comma and the rest, or the
/// closing bracket with nothing left.
pub open spec fn elems_sep_ok(ms: Seq<ValueModel>, s: Seq<char>, j1: int) -> bool
    decreases ms, 0int,
{
    ms.len() > 0 && 0 <= ws_end(s, j1) < s.len() && ((s[ws_end(s, j1)] == ',' && elems_ok(
        ms.drop_first(),
        s,
        ws_end(s, j1) + 1,
    )) || (s[ws_end(s, j1)] == ']' && ms.len() == 1))
}

/// Where the remaining-elements span starting at `k` ends.
pub open spec fn elems_end(ms: Seq<ValueModel>, s: Seq<char>, k: int) -> int
    decreases ms, 1int,
{
    if ms.len() == 0 {
        ws_end(s, k) + 1
    } else {
        elems_sep_end(ms, s, value_end(ms[0], s, ws_end(s, k)))
    }
}

/// Where the span after one element ending at `j1` ends.
pub open spec fn elems_sep_end(ms: Seq<ValueModel>, s: Seq<char>, j1: int) -> int
    decreases ms, 0int,
{
    if ms.len() > 0 && 0 <= ws_end(s, j1) < s.len() && s[ws_end(s, j1)] == ',' {
        elems_end(ms.drop_first(), s, ws_end(s, j1) + 1)
    } else {
        ws_end(s, j1) + 1
    }
}

/// From `k` (just after `{` or a separating comma): the remaining entries
/// `es`, then the closing brace.
pub open spec fn entries_ok(es: Seq<(Seq<char>, ValueModel)>, s: Seq<char>, k: int) -> bool
    decreases es, 2int,
{
    if es.len() == 0 {
        0 <= ws_end(s, k) < s.len() && s[ws_end(s, k)] == '}'
    } else {
        0 <= ws_end(s, k) < s.len() && s[ws_end(s, k)] == '"' && match lex_str_body(
            s,
            ws_end(s, k) + 1,
        ) {
            Some((key, j1)) => key == es[0].0 && entry_colon_ok(es, s, j1),
            None => false,
        }
    }
}

/// After an entry key ending at `j1`: a colon, the entry's value, and the
/// separator or closing brace.
pub open spec fn entry_colon_ok(es: Seq<(Seq<char>, ValueModel)>, s: Seq<char>, j1: int) -> bool
    decreases es, 1int,
    via entry_colon_ok_decreases
{
    es.len() > 0 && 0 <= ws_end(s, j1) < s.len() && s[ws_end(s, j1)] == ':' && value_ok(
        es[0].1,
        s,
        ws_end(s, ws_end(s, j1) + 1),
    ) && entries_sep_ok(es, s, value_end(es[0].1, s, ws_end(s, ws_end(s, j1) + 1)))
}

/// Establishes that an entry list outweighs its first entry's value.
#[via_fn]
proof fn entry_colon_ok_decreases(es: Seq<(Seq<char>, ValueModel)>, s: Seq<char>, j1: int) {
    if es.len() > 0 {
        assert(decreases_to!(es => es[0]));
        assert(decreases_to!(es[0] => es[0].1));
    }
}

/// After one entry's value ending at `j2`: a separating comma and the rest,
/// or the closing brace with nothing left.
pub open spec fn entries_sep_ok(es: Seq<(Seq<char>, ValueModel)>, s: Seq<char>, j2: int) -> bool
    decreases es, 0int,
{
    es.len() > 0 && 0 <= ws_end(s, j2) < s.len() && ((s[ws_end(s, j2)] == ',' && entries_ok(
        es.drop_first(),
        s,
        ws_end(s, j2) + 1,
    )) || (s[ws_end(s, j2)] == '}' && es.len() == 1))
}

/// Where the remaining-entries span starting at `k` ends.
pub open spec fn entries_end(es: Seq<(Seq<char>, ValueModel)>, s: Seq<char>, k: int) -> int
    decreases es, 2int,
{
    if es.len() == 0 {
        ws_end(s, k) + 1
    } else {
        match lex_str_body(s, ws_end(s, k) + 1) {
            Some((_, j1)) => entry_colon_end(es, s, j1),
            None => ws_end(s, k) + 1,
        }
    }
}

/// Where the span after an entry key ending at `j1` ends.
pub open spec fn entry_colon_end(es: Seq<(Seq<char>, ValueModel)>, s: Seq<char>, j1: int) -> int
    decreases es, 1int,
    via entry_colon_end_decreases
{
    if es.len() > 0 {
        entries_sep_end(es, s, value_end(es[0].1, s, ws_end(s, ws_end(s, j1) + 1)))
    } else {
        ws_end(s, j1) + 1
    }
}

/// Establishes that an entry list outweighs its first entry's value.
#[via_fn]
proof fn entry_colon_end_decreases(es: Seq<(Seq<char>, ValueModel)>, s: Seq<char>, j1: int) {
    if es.len() > 0 {
        assert(decreases_to!(es => es[0]));
        assert(decreases_to!(es[0] => es[0].1));
    }
}

/// Where the span after one entry's value ending at `j2` ends.
pub open spec fn entries_sep_end(es: Seq<(Seq<char>, ValueModel)>, s: Seq<char>, j2: int) -> int
    decreases es, 0int,
{
    if es.len() > 0 && 0 <= ws_end(s, j2) < s.len() && s[ws_end(s, j2)] == ',' {
        entries_end(es.drop_first(), s, ws_end(s, j2) + 1)
    } else {
        ws_end(s, j2) + 1
    }
}

/// The identifier run starting at `i` ends at the first position that does
/// not continue an identifier.
proof fn lemma_ident_end_char(s: Seq<char>, i: int)
    requires
        0 <= i <= s.len(),
    ensures
        i <= ident_end(s, i) <= s.len(),
        ident_end(s, i) < s.len() ==> !is_ident_char(s[ident_end(s, i)]),
    decreases s.len() - i,
{
    if i < s.len() && is_ident_char(s[i]) {
        lemma_ident_end_char(s, i + 1);
    }
}

/// An identifier run with a known boundary determines where the run ends.
proof fn lemma_ident_end_run(s: Seq<char>, i: int, j: int)
    requires
        0 <= i <= j <= s.len(),
        forall|k: int| i <= k < j ==> is_ident_char(#[trigger] s[k]),
        j == s.len() || !is_ident_char(s[j]),
    ensures
        ident_end(s, i) == j,
    decreases j - i,
{
    if i < j {
        lemma_ident_end_run(s, i + 1, j);
    }
}

/// A value's first character is an opening quote, digit, `t`, `f`, `[` or `{`.
proof fn lemma_value_start(m: ValueModel, s: Seq<char>, i: int)
    requires
        value_ok(m, s, i),
    ensures
        0 <= i < s.len(),
        s[i] == '"' || is_digit(s[i]) || s[i] == 't' || s[i] == 'f' || s[i] == '[' || s[i] == '{',
{
    match m {
        ValueModel::Str(_) => {},
        ValueModel::Num(_) => {},
        ValueModel::Bool(b) => {},
        ValueModel::Null => {},
        ValueModel::Arr(_) => {},
        ValueModel::Obj(_) => {},
    }
}

/// The grammar is deterministic: at one position only one value reads, and
/// its end is determined.
proof fn lemma_value_unique(m1: ValueModel, m2: ValueModel, s: Seq<char>, i: int)
    requires
        value_ok(m1, s, i),
        value_ok(m2, s, i),
    ensures
        m1 == m2,
        value_end(m1, s, i) == value_end(m2, s, i),
    decreases m1, 3int,
{
    match (m1, m2) {
        (ValueModel::Arr(a1), ValueModel::Arr(a2)) => {
            lemma_elems_unique(a1, a2, s, i + 1);
        },
        (ValueModel::Obj(e1), ValueModel::Obj(e2)) => {
            lemma_entries_unique(e1, e2, s, i + 1);
        },
        _ => {
            lemma_value_start(m1, s, i);
            lemma_value_start(m2, s, i);
        },
    }
}

/// At one position only one element list reads, with a determined end.
proof fn lemma_elems_unique(ms1: Seq<ValueModel>, ms2: Seq<ValueModel>, s: Seq<char>, k: int)
    requires
        elems_ok(ms1, s, k),
        elems_ok(ms2, s, k),
    ensures
        ms1 == ms2,
        elems_end(ms1, s, k) == elems_end(ms2, s, k),
    decreases ms1, 1int,
{
    let k2 = ws_end(s, k);
    if ms1.len() == 0 {
        if ms2.len() > 0 {
            lemma_value_start(ms2[0], s, k2);
        }
        assert(ms1 =~= ms2);
    } else if ms2.len() == 0 {
        lemma_value_start(ms1[0], s, k2);
    } else {
        assert(decreases_to!(ms1 => ms1[0]));
        lemma_value_unique(ms1[0], ms2[0], s, k2);
        let j1 = value_end(ms1[0], s, k2);
        let k3 = ws_end(s, j1);
        if s[k3] == ',' {
            lemma_elems_unique(ms1.drop_first(), ms2.drop_first(), s, k3 + 1);
            assert forall|x: int| 0 <= x < ms1.len() implies ms1[x] == ms2[x] by {
                if x > 0 {
                    assert(ms1[x] == ms1.drop_first()[x - 1]);
                    assert(ms2[x] == ms2.drop_first()[x - 1]);
                }
            }
            assert(ms1 =~= ms2);
        } else {
            assert(ms1.len() == 1 && ms2.len() == 1);
            assert(ms1 =~= ms2);
        }
    }
}

/// At one position only one entry list reads, with a determined end.
proof fn lemma_entries_unique(
    es1: Seq<(Seq<char>, ValueModel)>,
    es2: Seq<(Seq<char>, ValueModel)>,
    s: Seq<char>,
    k: int,
)
    requires
        entries_ok(es1, s, k),
        entries_ok(es2, s, k),
    ensures
        es1 == es2,
        entries_end(es1, s, k) == entries_end(es2, s, k),
    decreases es1, 2int,
{
    let k2 = ws_end(s, k);
    if es1.len() == 0 {
        assert(es2.len() == 0);
        assert(es1 =~= es2);
    } else if es2.len() == 0 {
    } else {
        match lex_str_body(s, k2 + 1) {
            Some((key, j1)) => {
                assert(es1[0].0 == key && es2[0].0 == key);
                let k3 = ws_end(s, j1);
                let vpos = ws_end(s, k3 + 1);
                assert(decreases_to!(es1 => es1[0]));
                assert(decreases_to!(es1[0] => es1[0].1));
                lemma_value_unique(es1[0].1, es2[0].1, s, vpos);
                let j2 = value_end(es1[0].1, s, vpos);
                let k4 = ws_end(s, j2);
                if s[k4] == ',' {
                    lemma_entries_unique(es1.drop_first(), es2.drop_first(), s, k4 + 1);
                    assert forall|x: int| 0 <= x < es1.len() implies es1[x] == es2[x] by {
                        if x > 0 {
                            assert(es1[x] == es1.drop_first()[x - 1]);
                            assert(es2[x] == es2.drop_first()[x - 1]);
                        } else {
                            assert(es1[0] == (key, es1[0].1));
                            assert(es2[0] == (key, es2[0].1));
                        }
                    }
                    assert(es1 =~= es2);
                } else {
                    assert(es1.len() == 1 && es2.len() == 1);
                    assert(es1[0] == (key, es1[0].1));
                    assert(es2[0] == (key, es2[0].1));
                    assert(es1 =~= es2);
                }
            },
            None => {},
        }
    }
}

/// Prepending one parsed element to a parsed tail.
proof fn lemma_model_seq_cons(x: JsonValue, s: Seq<JsonValue>)
    ensures
        model_seq(seq![x] + s) == seq![model(x)] + model_seq(s),
    decreases s.len(),
{
    if s.len() == 0 {
        assert(seq![x] + s =~= seq![x]);
        assert(seq![x].drop_last() =~= Seq::<JsonValue>::empty());
        assert(model_seq(Seq::<JsonValue>::empty()) == Seq::<ValueModel>::empty());
        assert(model_seq(s) == Seq::<ValueModel>::empty());
        assert(seq![x].last() == x);
        assert(model_seq(seq![x]) =~= seq![model(x)] + model_seq(s));
    } else {
        lemma_model_seq_cons(x, s.drop_last());
        assert((seq![x] + s).drop_last() =~= seq![x] + s.drop_last());
        assert((seq![x] + s).last() == s.last());
        assert(model_seq(seq![x] + s) =~= seq![model(x)] + model_seq(s));
    }
}

/// Prepending one parsed entry to a parsed tail.
proof fn lemma_model_entries_cons(k: String, x: JsonValue, s: Seq<(String, JsonValue)>)
    ensures
        model_entries(seq![(k, x)] + s) == seq![(k@, model(x))] + model_entries(s),
    decreases s.len(),
{
    if s.len() == 0 {
        assert(seq![(k, x)] + s =~= seq![(k, x)]);
        assert(seq![(k, x)].drop_last() =~= Seq::<(String, JsonValue)>::empty());
        assert(model_entries(Seq::<(String, JsonValue)>::empty()) == Seq::<
            (Seq<char>, ValueModel),
        >::empty());
        assert(model_entries(s) == Seq::<(Seq<char>, ValueModel)>::empty());
        assert(seq![(k, x)].last() == (k, x));
        assert(model_entries(seq![(k, x)]) =~= seq![(k@, model(x))] + model_entries(s));
    } else {
        lemma_model_entries_cons(k, x, s.drop_last());
        assert((seq![(k, x)] + s).drop_last() =~= seq![(k, x)] + s.drop_last());
        assert((seq![(k, x)] + s).last() == s.last());
        assert(model_entries(seq![(k, x)] + s) =~= seq![(k@, model(x))] + model_entries(s));
    }
}

impl JsonValue {
    /// The string payload, where this value is a string.
    pub fn as_str(&self) -> (r: Option<&str>)
        ensures
            match self {
                JsonValue::Str(s) => r matches Some(t) && t@ == s@,
                _ => r is None,
            },
    {
        match self {
            JsonValue::Str(s) => Some(s.as_str()),
            _ => None,
        }
    }

    /// The canonical decimal text of the number, where this value is a number.
    pub fn as_number(&self) -> (r: Option<&str>)
        ensures
            match self {
                JsonValue::Number(n) => r matches Some(t) && t@ == n@,
                _ => r is None,
            },
    {
        match self {
            JsonValue::Number(n) => Some(n.as_str()),
            _ => None,
        }
    }

    /// The boolean payload, where this value is a boolean.
    pub fn as_bool(&self) -> (r: Option<bool>)
        ensures
            match self {
                JsonValue::Boolean(b) => r == Some(*b),
                _ => r is None,
            },
    {
        match self {
            JsonValue::Boolean(b) => Some(*b),
            _ => None,
        }
    }

    /// The elements, where this value is an array.
    pub fn as_array(&self) -> (r: Option<&Vec<JsonValue>>)
        ensures
            match self {
                JsonValue::Array(elems) => r matches Some(a) && a@ == elems@,
                _ => r is None,
            },
    {
        match self {
            JsonValue::Array(elems) => Some(elems),
            _ => None,
        }
    }

    /// The entries, where this value is an object.
    pub fn as_object(&self) -> (r: Option<&Vec<(String, JsonValue)>>)
        ensures
            match self {
                JsonValue::Object(entries) => r matches Some(o) && o@ == entries@,
                _ => r is None,
            },
    {
        match self {
            JsonValue::Object(entries) => Some(entries),
            _ => None,
        }
    }
}

// ---------------------------------------------------------------------------
// The recursive-descent parser.
// ---------------------------------------------------------------------------

/// The entries of one object literal.
pub struct JsonStruct {
    pub entries: Vec<(String, JsonValue)>,
}

/// One parsed invocation: the declared type name, the resolved configuration
/// and the root value tree.
pub struct JsonMacroInput {
    pub struct_name: String,
    pub flags: JsonMacroFlags,
    pub content: JsonStruct,
}

/// The identifier an invocation's text begins with (after whitespace).
pub open spec fn leading_ident(s: Seq<char>) -> Seq<char> {
    s.subrange(ws_end(s, 0), ident_end(s, ws_end(s, 0)))
}

/// Parses one value whose first token starts exactly at `pos`. On success
/// the text at `pos` reads as the returned value and the returned position is
/// where that span ends.
pub fn parse_json_value(cs: &Vec<char>, pos: usize) -> (r: Result<(JsonValue, usize), ParseError>)
    requires
        pos <= cs@.len(),
    ensures
        r matches Ok(p) ==> pos < p.1 <= cs@.len() && value_ok(model(p.0), cs@, pos as int)
            && p.1 == value_end(model(p.0), cs@, pos as int),
        r matches Err(_) ==> forall|m: ValueModel| !(#[trigger] value_ok(m, cs@, pos as int)),
        r matches Err(e) ==> !(e is UnknownFlag) && !(e is NonObjectRoot) && !(e is MalformedDerive),
    decreases cs@.len() - pos, 0int,
{
    let n = cs.len();
    if pos >= n {
        proof {
            assert forall|m: ValueModel| !(#[trigger] value_ok(m, cs@, pos as int)) by {
                if value_ok(m, cs@, pos as int) {
                    lemma_value_start(m, cs@, pos as int);
                }
            }
        }
        return Err(ParseError::Syntax { pos });
    }
    let c = cs[pos];
    if c == '[' {
        match parse_elems(cs, pos + 1) {
            Ok((elems, j)) => Ok((JsonValue::Array(elems), j)),
            Err(e) => {
                proof {
                    assert forall|m: ValueModel| !(#[trigger] value_ok(m, cs@, pos as int)) by {
                        if value_ok(m, cs@, pos as int) {
                            match m {
                                ValueModel::Arr(ms) => {
                                    assert(!elems_ok(ms, cs@, pos + 1));
                                },
                                _ => {},
                            }
                        }
                    }
                }
                Err(e)
            },
        }
    } else if c == '{' {
        match parse_entries(cs, pos + 1) {
            Ok((entries, j)) => Ok((JsonValue::Object(entries), j)),
            Err(e) => {
                proof {
                    assert forall|m: ValueModel| !(#[trigger] value_ok(m, cs@, pos as int)) by {
                        if value_ok(m, cs@, pos as int) {
                            match m {
                                ValueModel::Obj(es) => {
                                    assert(!entries_ok(es, cs@, pos + 1));
                                },
                                _ => {},
                            }
                        }
                    }
                }
                Err(e)
            },
        }
    } else if c == '"' {
        match read_string(cs, pos) {
            Ok((t, j)) => Ok((JsonValue::Str(t), j)),
            Err(e) => {
                proof {
                    assert forall|m: ValueModel| !(#[trigger] value_ok(m, cs@, pos as int)) by {}
                }
                Err(e)
            },
        }
    } else if '0' <= c && c <= '9' {
        let (t, j) = read_number(cs, pos);
        Ok((JsonValue::Number(t), j))
    } else if ('a' <= c && c <= 'z') || ('A' <= c && c <= 'Z') || c == '_' {
        let (name, j) = match read_ident(cs, pos) {
            Some(p) => p,
            None => {
                proof {
                    assert(false);
                }
                return Err(ParseError::Syntax { pos });
            },
        };
        if str_is(&name, "true") {
            proof {
                reveal_strlit("true");
                lemma_ident_end_char(cs@, pos as int);
                assert(cs@.subrange(pos as int, j as int)[0] == 't');
                assert(cs@.subrange(pos as int, j as int)[1] == 'r');
                assert(cs@.subrange(pos as int, j as int)[2] == 'u');
                assert(cs@.subrange(pos as int, j as int)[3] == 'e');
            }
            Ok((JsonValue::Boolean(true), j))
        } else if str_is(&name, "false") {
            proof {
                reveal_strlit("false");
                lemma_ident_end_char(cs@, pos as int);
                assert(cs@.subrange(pos as int, j as int)[0] == 'f');
                assert(cs@.subrange(pos as int, j as int)[1] == 'a');
                assert(cs@.subrange(pos as int, j as int)[2] == 'l');
                assert(cs@.subrange(pos as int, j as int)[3] == 's');
                assert(cs@.subrange(pos as int, j as int)[4] == 'e');
            }
            Ok((JsonValue::Boolean(false), j))
        } else {
            proof {
                reveal_strlit("true");
                reveal_strlit("false");
                assert forall|m: ValueModel| !(#[trigger] value_ok(m, cs@, pos as int)) by {
                    if value_ok(m, cs@, pos as int) {
                        match m {
                            ValueModel::Bool(b) => {
                                if b {
                                    assert(is_ident_char(cs@[pos as int]));
                                    assert(is_ident_char(cs@[pos + 1]));
                                    assert(is_ident_char(cs@[pos + 2]));
                                    assert(is_ident_char(cs@[pos + 3]));
                                    lemma_ident_end_run(cs@, pos as int, pos + 4);
                                    assert(name@ =~= "true"@);
                                } else {
                                    assert(is_ident_char(cs@[pos as int]));
                                    assert(is_ident_char(cs@[pos + 1]));
                                    assert(is_ident_char(cs@[pos + 2]));
                                    assert(is_ident_char(cs@[pos + 3]));
                                    assert(is_ident_char(cs@[pos + 4]));
                                    lemma_ident_end_run(cs@, pos as int, pos + 5);
                                    assert(name@ =~= "false"@);
                                }
                            },
                            _ => {},
                        }
                    }
                }
            }
            Err(ParseError::UnsupportedLiteral { pos })
        }
    } else if c == '\'' {
        proof {
            assert forall|m: ValueModel| !(#[trigger] value_ok(m, cs@, pos as int)) by {}
        }
        Err(ParseError::UnsupportedLiteral { pos })
    } else {
        proof {
            assert forall|m: ValueModel| !(#[trigger] value_ok(m, cs@, pos as int)) by {
                if value_ok(m, cs@, pos as int) {
                    lemma_value_start(m, cs@, pos as int);
                }
            }
        }
        Err(ParseError::Syntax { pos })
    }
}

/// Parses the remaining elements of an array from `pos` (just after `[` or a
/// separating comma), up to and including the closing bracket.
fn parse_elems(cs: &Vec<char>, pos: usize) -> (r: Result<(Vec<JsonValue>, usize), ParseError>)
    requires
        pos <= cs@.len(),
    ensures
        r matches Ok(p) ==> pos < p.1 <= cs@.len() && elems_ok(model_seq(p.0@), cs@, pos as int)
            && p.1 == elems_end(model_seq(p.0@), cs@, pos as int),
        r matches Err(_) ==> forall|ms: Seq<ValueModel>| !(#[trigger] elems_ok(ms, cs@, pos as int)),
        r matches Err(e) ==> !(e is UnknownFlag) && !(e is NonObjectRoot) && !(e is MalformedDerive),
    decreases cs@.len() - pos, 1int,
{
    let n = cs.len();
    let k2 = skip_ws(cs, pos);
    if k2 >= n {
        proof {
            assert forall|ms: Seq<ValueModel>| !(#[trigger] elems_ok(ms, cs@, pos as int)) by {
                if elems_ok(ms, cs@, pos as int) && ms.len() > 0 {
                    lemma_value_start(ms[0], cs@, k2 as int);
                }
            }
        }
        return Err(ParseError::Syntax { pos: k2 });
    }
    if cs[k2] == ']' {
        let empty: Vec<JsonValue> = Vec::new();
        proof {
            assert(model_seq(empty@) =~= Seq::<ValueModel>::empty());
        }
        return Ok((empty, k2 + 1));
    }
    let (v, j1) = match parse_json_value(cs, k2) {
        Ok(p) => p,
        Err(e) => {
            proof {
                assert forall|ms: Seq<ValueModel>| !(#[trigger] elems_ok(ms, cs@, pos as int)) by {
                    if elems_ok(ms, cs@, pos as int) && ms.len() > 0 {
                        assert(!value_ok(ms[0], cs@, k2 as int));
                    }
                }
            }
            return Err(e);
        },
    };
    let ghost vm = model(v);
    let k3 = skip_ws(cs, j1);
    proof {
        assert forall|ms: Seq<ValueModel>| #[trigger] elems_ok(ms, cs@, pos as int) implies ms.len()
            > 0 && ms[0] == vm && ws_end(cs@, value_end(ms[0], cs@, k2 as int)) == k3 as int by {
            if ms.len() > 0 {
                lemma_value_unique(ms[0], vm, cs@, k2 as int);
            }
        }
    }
    if k3 >= n {
        proof {
            assert forall|ms: Seq<ValueModel>| !(#[trigger] elems_ok(ms, cs@, pos as int)) by {}
        }
        return Err(ParseError::Syntax { pos: k3 });
    }
    if cs[k3] == ']' {
        let mut out: Vec<JsonValue> = Vec::new();
        out.push(v);
        proof {
            assert(out@.drop_last() =~= Seq::<JsonValue>::empty());
            assert(model_seq(out@.drop_last()) =~= Seq::<ValueModel>::empty());
            assert(model_seq(out@) =~= seq![vm]);
            assert(seq![vm].drop_first() =~= Seq::<ValueModel>::empty());
        }
        return Ok((out, k3 + 1));
    }
    if cs[k3] != ',' {
        proof {
            assert forall|ms: Seq<ValueModel>| !(#[trigger] elems_ok(ms, cs@, pos as int)) by {}
        }
        return Err(ParseError::Syntax { pos: k3 });
    }
    let (mut rest, j) = match parse_elems(cs, k3 + 1) {
        Ok(p) => p,
        Err(e) => {
            proof {
                assert forall|ms: Seq<ValueModel>| !(#[trigger] elems_ok(ms, cs@, pos as int)) by {
                    if elems_ok(ms, cs@, pos as int) {
                        assert(!elems_ok(ms.drop_first(), cs@, k3 + 1));
                    }
                }
            }
            return Err(e);
        },
    };
    let ghost restv = rest@;
    let ghost restm = model_seq(rest@);
    let mut out: Vec<JsonValue> = Vec::new();
    out.push(v);
    out.append(&mut rest);
    proof {
        assert(out@ =~= seq![v] + restv);
        lemma_model_seq_cons(v, restv);
        let grown = seq![vm] + restm;
        assert(model_seq(out@) == grown);
        assert(grown[0] == vm);
        assert(grown.drop_first() =~= restm);
        assert(grown.len() > 0);
    }
    Ok((out, j))
}

/// Parses the remaining entries of an object from `pos` (just after `{` or a
/// separating comma), up to and including the closing brace.
pub fn parse_entries(cs: &Vec<char>, pos: usize) -> (r: Result<
    (Vec<(String, JsonValue)>, usize),
    ParseError,
>)
    requires
        pos <= cs@.len(),
    ensures
        r matches Ok(p) ==> pos < p.1 <= cs@.len() && entries_ok(
            model_entries(p.0@),
            cs@,
            pos as int,
        ) && p.1 == entries_end(model_entries(p.0@), cs@, pos as int),
        r matches Err(_) ==> forall|es: Seq<(Seq<char>, ValueModel)>|
            !(#[trigger] entries_ok(es, cs@, pos as int)),
        r matches Err(e) ==> !(e is UnknownFlag) && !(e is NonObjectRoot) && !(e is MalformedDerive),
    decreases cs@.len() - pos, 1int,
{
    let n = cs.len();
    let k2 = skip_ws(cs, pos);
    if k2 >= n {
        proof {
            assert forall|es: Seq<(Seq<char>, ValueModel)>|
                !(#[trigger] entries_ok(es, cs@, pos as int)) by {}
        }
        return Err(ParseError::Syntax { pos: k2 });
    }
    if cs[k2] == '}' {
        let empty: Vec<(String, JsonValue)> = Vec::new();
        proof {
            assert(model_entries(empty@) =~= Seq::<(Seq<char>, ValueModel)>::empty());
        }
        return Ok((empty, k2 + 1));
    }
    if cs[k2] != '"' {
        proof {
            assert forall|es: Seq<(Seq<char>, ValueModel)>|
                !(#[trigger] entries_ok(es, cs@, pos as int)) by {}
        }
        return Err(ParseError::Syntax { pos: k2 });
    }
    let (key, j1) = match read_string(cs, k2) {
        Ok(t) => t,
        Err(e) => {
            proof {
                assert forall|es: Seq<(Seq<char>, ValueModel)>|
                    !(#[trigger] entries_ok(es, cs@, pos as int)) by {}
            }
            return Err(e);
        },
    };
    let k3 = skip_ws(cs, j1);
    if k3 >= n || cs[k3] != ':' {
        proof {
            assert forall|es: Seq<(Seq<char>, ValueModel)>|
                !(#[trigger] entries_ok(es, cs@, pos as int)) by {}
        }
        return Err(ParseError::Syntax { pos: k3 });
    }
    let k4 = skip_ws(cs, k3 + 1);
    let (v, j2) = match parse_json_value(cs, k4) {
        Ok(q) => q,
        Err(e) => {
            proof {
                assert forall|es: Seq<(Seq<char>, ValueModel)>|
                    !(#[trigger] entries_ok(es, cs@, pos as int)) by {
                    if entries_ok(es, cs@, pos as int) && es.len() > 0 {
                        assert(!value_ok(es[0].1, cs@, k4 as int));
                    }
                }
            }
            return Err(e);
        },
    };
    let ghost km = key@;
    let ghost vm = model(v);
    let k5 = skip_ws(cs, j2);
    proof {
        assert forall|es: Seq<(Seq<char>, ValueModel)>|
            #[trigger] entries_ok(es, cs@, pos as int) implies es.len() > 0 && es[0] == (km, vm)
            && ws_end(cs@, value_end(es[0].1, cs@, k4 as int)) == k5 as int by {
            if es.len() > 0 {
                lemma_value_unique(es[0].1, vm, cs@, k4 as int);
                assert(es[0] == (es[0].0, es[0].1));
            }
        }
    }
    if k5 >= n {
        proof {
            assert forall|es: Seq<(Seq<char>, ValueModel)>|
                !(#[trigger] entries_ok(es, cs@, pos as int)) by {}
        }
        return Err(ParseError::Syntax { pos: k5 });
    }
    if cs[k5] == '}' {
        let mut out: Vec<(String, JsonValue)> = Vec::new();
        out.push((key, v));
        proof {
            assert(out@.drop_last() =~= Seq::<(String, JsonValue)>::empty());
            assert(model_entries(out@.drop_last()) =~= Seq::<(Seq<char>, ValueModel)>::empty());
            assert(out@.last() == (key, v));
            assert(model_entries(out@) =~= seq![(km, vm)]);
            assert(seq![(km, vm)].drop_first() =~= Seq::<(Seq<char>, ValueModel)>::empty());
        }
        return Ok((out, k5 + 1));
    }
    if cs[k5] != ',' {
        proof {
            assert forall|es: Seq<(Seq<char>, ValueModel)>|
                !(#[trigger] entries_ok(es, cs@, pos as int)) by {}
        }
        return Err(ParseError::Syntax { pos: k5 });
    }
    let (mut rest, j) = match parse_entries(cs, k5 + 1) {
        Ok(p) => p,
        Err(e) => {
            proof {
                assert forall|es: Seq<(Seq<char>, ValueModel)>|
                    !(#[trigger] entries_ok(es, cs@, pos as int)) by {
                    if entries_ok(es, cs@, pos as int) {
                        assert(!entries_ok(es.drop_first(), cs@, k5 + 1));
                    }
                }
            }
            return Err(e);
        },
    };
    let ghost restv = rest@;
    let ghost restm = model_entries(rest@);
    let mut out: Vec<(String, JsonValue)> = Vec::new();
    out.push((key, v));
    out.append(&mut rest);
    proof {
        assert(out@ =~= seq![(key, v)] + restv);
        lemma_model_entries_cons(key, v, restv);
        let grown = seq![(km, vm)] + restm;
        assert(model_entries(out@) == grown);
        assert(grown[0] == (km, vm));
        assert(grown.drop_first() =~= restm);
        assert(grown.len() > 0);
    }
    Ok((out, j))
}


/// Whether a string holds exactly the given literal.
fn str_is(name: &String, lit: &str) -> (b: bool)
    ensures
        b == (name@ == lit@),
{
    let l = String::from_str(lit);
    *name == l
}

/// The flags that take no argument list.
pub open spec fn is_simple_flag(n: Seq<char>) -> bool {
    ||| n == "debug"@
    ||| n == "store_json"@
    ||| n == "no_alias"@
    ||| n == "camel"@
    ||| n == "snake"@
    ||| n == "pascal"@
}

/// The effect of one recognized simple flag on the configuration.
pub open spec fn apply_simple_flag_spec(f: FlagsModel, n: Seq<char>) -> FlagsModel {
    if n == "debug"@ {
        FlagsModel { debug: true, ..f }
    } else if n == "store_json"@ {
        FlagsModel { store_json_value: true, ..f }
    } else if n == "no_alias"@ {
        FlagsModel { use_serde_alias: false, ..f }
    } else if n == "camel"@ {
        FlagsModel { rename_all: Some(RenameStyle::Camel), ..f }
    } else if n == "snake"@ {
        FlagsModel { rename_all: Some(RenameStyle::Snake), ..f }
    } else if n == "pascal"@ {
        FlagsModel { rename_all: Some(RenameStyle::Pascal), ..f }
    } else {
        f
    }
}

/// Applies one simple flag to the configuration; reports whether the name was
/// recognized and leaves the configuration unchanged where it was not.
fn apply_simple_flag(flags: &mut JsonMacroFlags, name: &String) -> (known: bool)
    ensures
        known == is_simple_flag(name@),
        flags_model(*final(flags)) == if known {
            apply_simple_flag_spec(flags_model(*old(flags)), name@)
        } else {
            flags_model(*old(flags))
        },
{
    if str_is(name, "debug") {
        flags.debug = true;
        assert(flags_model(*flags) =~~= apply_simple_flag_spec(flags_model(*old(flags)), name@));
        true
    } else if str_is(name, "store_json") {
        flags.store_json_value = true;
        assert(flags_model(*flags) =~~= apply_simple_flag_spec(flags_model(*old(flags)), name@));
        true
    } else if str_is(name, "no_alias") {
        flags.use_serde_alias = false;
        assert(flags_model(*flags) =~~= apply_simple_flag_spec(flags_model(*old(flags)), name@));
        true
    } else if str_is(name, "camel") {
        flags.rename_all = Some(RenameStyle::Camel);
        assert(flags_model(*flags) =~~= apply_simple_flag_spec(flags_model(*old(flags)), name@));
        true
    } else if str_is(name, "snake") {
        flags.rename_all = Some(RenameStyle::Snake);
        assert(flags_model(*flags) =~~= apply_simple_flag_spec(flags_model(*old(flags)), name@));
        true
    } else if str_is(name, "pascal") {
        flags.rename_all = Some(RenameStyle::Pascal);
        assert(flags_model(*flags) =~~= apply_simple_flag_spec(flags_model(*old(flags)), name@));
        true
    } else {
        assert(flags_model(*flags) =~~= flags_model(*old(flags)));
        false
    }
}

/// Whitespace skipping never moves backward.
proof fn lemma_ws_end_ge(s: Seq<char>, i: int)
    requires
        0 <= i <= s.len(),
    ensures
        i <= ws_end(s, i) <= s.len(),
    decreases s.len() - i,
{
    if i < s.len() && is_ws(s[i]) {
        lemma_ws_end_ge(s, i + 1);
    }
}

/// Reads the items of a parenthesized capability list from `p` (just after
/// `(` or a separating comma), accumulating onto `acc`: the collected tokens
/// and the position just after the closing parenthesis. Where the list is
/// malformed the tokens collected so far and the failing position come back.
pub open spec fn derive_items(s: Seq<char>, p: int, acc: Seq<Seq<char>>) -> (Seq<Seq<char>>, int)
    decreases s.len() - p,
    via derive_items_decreases
{
    let q = ws_end(s, p);
    if !(0 <= p <= s.len()) || q >= s.len() {
        (acc, -1)
    } else if s[q] == ')' {
        (acc, q + 1)
    } else if is_ident_start(s[q]) {
        let j = ident_end(s, q);
        let name = s.subrange(q, j);
        let w = ws_end(s, j);
        if w < s.len() && s[w] == ',' {
            derive_items(s, w + 1, acc.push(name))
        } else if w < s.len() && s[w] == ')' {
            (acc.push(name), w + 1)
        } else {
            (acc, -1)
        }
    } else {
        (acc, -1)
    }
}

/// Establishes progress through one capability-list item.
#[via_fn]
proof fn derive_items_decreases(s: Seq<char>, p: int, acc: Seq<Seq<char>>) {
    if 0 <= p <= s.len() {
        lemma_ws_end_ge(s, p);
        let q = ws_end(s, p);
        if q < s.len() && s[q] != ')' && is_ident_start(s[q]) {
            lemma_ident_end_char(s, q);
            let j = ident_end(s, q);
            lemma_ws_end_ge(s, j);
        }
    }
}

/// The capability list never ends past the text.
proof fn lemma_derive_items_end(s: Seq<char>, p: int, acc: Seq<Seq<char>>)
    requires
        0 <= p <= s.len(),
    ensures
        derive_items(s, p, acc).1 <= s.len(),
    decreases s.len() - p,
{
    lemma_ws_end_ge(s, p);
    let q = ws_end(s, p);
    if q < s.len() && s[q] != ')' && is_ident_start(s[q]) {
        lemma_ident_end_char(s, q);
        lemma_ident_end_char(s, q + 1);
        let j = ident_end(s, q);
        lemma_ws_end_ge(s, j);
        let w = ws_end(s, j);
        if w < s.len() && s[w] == ',' {
            lemma_derive_items_end(s, w + 1, acc.push(s.subrange(q, j)));
        }
    }
}

/// Resolves the flag tokens of the text from `p` on, folding each over `acc`:
/// the configuration after the last flag, and the position where the flag
/// sequence ends. An unrecognized or malformed flag stops the fold there.
pub open spec fn flags_fold(s: Seq<char>, p: int, acc: FlagsModel) -> (FlagsModel, int)
    decreases s.len() - p,
    via flags_fold_decreases
{
    let k = ws_end(s, p);
    if !(0 <= p <= s.len()) || k >= s.len() || s[k] != '@' || k + 1 >= s.len() || !is_ident_start(
        s[k + 1],
    ) {
        (acc, k)
    } else {
        let j = ident_end(s, k + 1);
        let name = s.subrange(k + 1, j);
        if name == "derive"@ {
            let q = ws_end(s, j);
            if q < s.len() && s[q] == '(' {
                let (args, e) = derive_items(s, q + 1, Seq::empty());
                if e > j {
                    flags_fold(
                        s,
                        e,
                        FlagsModel { custom_derives: acc.custom_derives + args, ..acc },
                    )
                } else {
                    (acc, k)
                }
            } else {
                (acc, k)
            }
        } else if is_simple_flag(name) {
            flags_fold(s, j, apply_simple_flag_spec(acc, name))
        } else {
            (acc, k)
        }
    }
}

/// Establishes progress through one flag token.
#[via_fn]
proof fn flags_fold_decreases(s: Seq<char>, p: int, acc: FlagsModel) {
    if 0 <= p <= s.len() {
        lemma_ws_end_ge(s, p);
        let k = ws_end(s, p);
        if k + 1 < s.len() && is_ident_start(s[k + 1]) {
            lemma_ident_end_char(s, k + 1);
            let j = ident_end(s, k + 1);
            lemma_ws_end_ge(s, j);
            let q = ws_end(s, j);
            if q + 1 <= s.len() {
                lemma_derive_items_end(s, q + 1, Seq::empty());
            }
        }
    }
}

/// The collected items come out appended to the accumulator.
proof fn lemma_derive_items_acc(s: Seq<char>, p: int, acc: Seq<Seq<char>>)
    ensures
        derive_items(s, p, acc).0 == acc + derive_items(s, p, Seq::empty()).0,
        derive_items(s, p, acc).1 == derive_items(s, p, Seq::empty()).1,
    decreases s.len() - p,
{
    let q = ws_end(s, p);
    if !(0 <= p <= s.len()) || q >= s.len() || s[q] == ')' || !is_ident_start(s[q]) {
        assert(acc + Seq::<Seq<char>>::empty() =~= acc);
    } else {
        lemma_ws_end_ge(s, p);
        lemma_ident_end_char(s, q);
        lemma_ident_end_char(s, q + 1);
        let j = ident_end(s, q);
        lemma_ws_end_ge(s, j);
        let name = s.subrange(q, j);
        let w = ws_end(s, j);
        if w < s.len() && s[w] == ',' {
            lemma_derive_items_acc(s, w + 1, acc.push(name));
            lemma_derive_items_acc(s, w + 1, seq![name]);
            lemma_derive_items_acc(s, w + 1, Seq::empty());
            assert(acc.push(name) + derive_items(s, w + 1, Seq::empty()).0 =~= acc + (seq![name]
                + derive_items(s, w + 1, Seq::empty()).0));
            assert(seq![name] + derive_items(s, w + 1, Seq::empty()).0 =~= Seq::<
                Seq<char>,
            >::empty().push(name) + derive_items(s, w + 1, Seq::empty()).0);
        } else if w < s.len() && s[w] == ')' {
            assert(acc.push(name) =~= acc + Seq::<Seq<char>>::empty().push(name));
        } else {
            assert(acc + Seq::<Seq<char>>::empty() =~= acc);
        }
    }
}

/// A whole invocation reads from the text: a leading identifier, recognized
/// flags, a braced root object, and nothing but whitespace after it.
pub open spec fn invocation_ok(s: Seq<char>) -> bool {
    let a = ws_end(s, 0);
    &&& 0 <= a < s.len()
    &&& is_ident_start(s[a])
    &&& ({
        let k = flags_fold(s, ident_end(s, a), default_flags_model()).1;
        &&& 0 <= k < s.len()
        &&& s[k] == '{'
        &&& (exists|es: Seq<(Seq<char>, ValueModel)>|
            #[trigger] entries_ok(es, s, k + 1) && ws_end(s, entries_end(es, s, k + 1)) == s.len())
    })
}

/// The flag resolution of the text stops at an unrecognized flag token: the
/// leading identifier is present and the first unconsumed token is `@` with
/// an identifier that is neither a recognized simple flag nor `derive`.
pub open spec fn stops_at_unknown_flag(s: Seq<char>) -> bool {
    let a = ws_end(s, 0);
    &&& 0 <= a < s.len()
    &&& is_ident_start(s[a])
    &&& ({
        let kk = flags_fold(s, ident_end(s, a), default_flags_model()).1;
        &&& 0 <= kk
        &&& kk + 1 < s.len()
        &&& s[kk] == '@'
        &&& is_ident_start(s[kk + 1])
        &&& !is_simple_flag(s.subrange(kk + 1, ident_end(s, kk + 1)))
        &&& s.subrange(kk + 1, ident_end(s, kk + 1)) != "derive"@
    })
}

/// Reads the parenthesized, comma-separated capability list of `@derive`.
/// A missing list is the malformed-derive error.
fn read_derive_args(cs: &Vec<char>, pos: usize) -> (r: Result<(Vec<String>, usize), ParseError>)
    requires
        pos <= cs@.len(),
    ensures
        r matches Ok(p) ==> pos < p.1 <= cs@.len() && (forall|k: int|
            0 <= k < p.0@.len() ==> is_ident_seq(#[trigger] p.0@[k]@)) && ({
            let k = ws_end(cs@, pos as int);
            &&& k < cs@.len()
            &&& cs@[k] == '('
            &&& derive_items(cs@, k + 1, Seq::empty()).0 == strs_model(p.0@)
            &&& derive_items(cs@, k + 1, Seq::empty()).1 == p.1 as int
        }),
        r matches Err(e) ==> (e matches ParseError::MalformedDerive { pos: po } ==> ({
            let k = ws_end(cs@, pos as int);
            po == k && (k >= cs@.len() || cs@[k] != '(')
        })) && !(e is UnknownFlag),
        r matches Err(e) ==> (e matches ParseError::Syntax { .. } ==> ({
            let k = ws_end(cs@, pos as int);
            k < cs@.len() && cs@[k] == '(' && derive_items(cs@, k + 1, Seq::empty()).1 == -1
        })) && (e is Syntax || e is MalformedDerive),
{
    let n = cs.len();
    let k = skip_ws(cs, pos);
    if k >= n || cs[k] != '(' {
        return Err(ParseError::MalformedDerive { pos: k });
    }
    let mut args: Vec<String> = Vec::new();
    let mut p = k + 1;
    assert(strs_model(args@) =~= Seq::<Seq<char>>::empty());
    loop
        invariant
            pos < p <= n,
            n == cs@.len(),
            k == ws_end(cs@, pos as int),
            k < n,
            cs@[k as int] == '(',
            forall|t: int| 0 <= t < args@.len() ==> is_ident_seq(#[trigger] args@[t]@),
            derive_items(cs@, k + 1, Seq::empty()) == derive_items(
                cs@,
                p as int,
                strs_model(args@),
            ),
        decreases n - p,
    {
        let q = skip_ws(cs, p);
        if q >= n {
            return Err(ParseError::Syntax { pos: q });
        }
        if cs[q] == ')' {
            assert(derive_items(cs@, p as int, strs_model(args@)).0 == strs_model(args@));
            assert(derive_items(cs@, p as int, strs_model(args@)).1 == q + 1);
            return Ok((args, q + 1));
        }
        let (name, j) = match read_ident(cs, q) {
            Some(t) => t,
            None => {
                return Err(ParseError::Syntax { pos: q });
            },
        };
        let q2 = skip_ws(cs, j);
        if q2 >= n {
            return Err(ParseError::Syntax { pos: q2 });
        }
        if cs[q2] == ',' {
            let ghost old_args = strs_model(args@);
            args.push(name);
            proof {
                assert(strs_model(args@) =~= old_args.push(name@));
                assert(derive_items(cs@, p as int, old_args) == derive_items(
                    cs@,
                    q2 + 1,
                    old_args.push(name@),
                ));
            }
            p = q2 + 1;
        } else if cs[q2] == ')' {
            let ghost old_args = strs_model(args@);
            args.push(name);
            proof {
                assert(strs_model(args@) =~= old_args.push(name@));
                assert(derive_items(cs@, p as int, old_args).0 == old_args.push(name@));
                assert(derive_items(cs@, p as int, old_args).1 == q2 + 1);
                assert(forall|t: int|
                    0 <= t < args@.len() ==> is_ident_seq(#[trigger] args@[t]@));
            }
            return Ok((args, q2 + 1));
        } else {
            return Err(ParseError::Syntax { pos: q2 });
        }
    }
}

impl JsonMacroInput {
    /// Parses one whole invocation: the type name, the flags and the braced
    /// root object, with nothing but whitespace after it. On success the root
    /// entries read from the text exactly, the type name is an identifier,
    /// and an unknown-flag error names a token outside the recognized set.
    pub fn parse(input: &str) -> (r: Result<JsonMacroInput, ParseError>)
        ensures
            r matches Ok(inp) ==> ({
                let a = ws_end(input@, 0);
                &&& a < input@.len()
                &&& is_ident_start(input@[a])
                &&& inp.struct_name@ == leading_ident(input@)
                &&& is_ident_seq(inp.struct_name@)
            }),
            r matches Ok(inp) ==> exists|o: int|
                0 <= o < input@.len() && #[trigger] input@[o] == '{' && entries_ok(
                    model_entries(inp.content.entries@),
                    input@,
                    o + 1,
                ) && ws_end(input@, entries_end(model_entries(inp.content.entries@), input@, o + 1))
                    == input@.len(),
            r matches Ok(inp) ==> flags_model(inp.flags) == flags_fold(
                input@,
                ident_end(input@, ws_end(input@, 0)),
                default_flags_model(),
            ).0,
            r matches Ok(_) ==> invocation_ok(input@),
            r matches Err(_) ==> !invocation_ok(input@),
            r matches Err(e) ==> (stops_at_unknown_flag(input@) ==> e is UnknownFlag),
            r matches Err(e) ==> (e matches ParseError::UnknownFlag { pos: po, flag } ==> ({
                &&& !is_simple_flag(flag@)
                &&& flag@ != "derive"@
                &&& is_ident_seq(flag@)
                &&& 0 < po < input@.len()
                &&& input@[po - 1] == '@'
                &&& flag@ == input@.subrange(po as int, ident_end(input@, po as int))
            })),
            r matches Err(e) ==> (e matches ParseError::MalformedDerive { pos: po } ==> exists|kk: int|
                ({
                    &&& 0 <= kk
                    &&& kk + 1 < input@.len()
                    &&& #[trigger] input@[kk] == '@'
                    &&& input@.subrange(kk + 1, ident_end(input@, kk + 1)) == "derive"@
                    &&& po == ws_end(input@, ident_end(input@, kk + 1))
                    &&& (po >= input@.len() || input@[po as int] != '(')
                })),
            r matches Err(e) ==> (e matches ParseError::NonObjectRoot { pos: po } ==> ({
                let kk = flags_fold(
                    input@,
                    ident_end(input@, ws_end(input@, 0)),
                    default_flags_model(),
                ).1;
                &&& po == kk
                &&& 0 <= kk < input@.len()
                &&& input@[kk] != '{'
                &&& (input@[kk] == '"' || is_digit(input@[kk]) || input@[kk] == '[' || input@[kk]
                    == 't' || input@[kk] == 'f' || input@[kk] == '\'')
            })),
    {
        let cs = chars_of(input);
        let n = cs.len();
        let a = skip_ws(&cs, 0);
        let (struct_name, b) = match read_ident(&cs, a) {
            Some(t) => t,
            None => {
                assert(!invocation_ok(input@));
                return Err(ParseError::Syntax { pos: a });
            },
        };
        let mut flags = JsonMacroFlags::default();
        let mut p = b;
        assert(b == ident_end(cs@, ws_end(cs@, 0)));
        loop
            invariant
                0 < p <= n,
                n == cs@.len(),
                cs@ == input@,
                is_ident_seq(struct_name@),
                b == ident_end(cs@, ws_end(cs@, 0)),
                flags_fold(cs@, b as int, default_flags_model()) == flags_fold(
                    cs@,
                    p as int,
                    flags_model(flags),
                ),
            ensures
                flags_model(flags) == flags_fold(cs@, b as int, default_flags_model()).0,
                flags_fold(cs@, b as int, default_flags_model()).1 == ws_end(cs@, p as int),
                ws_end(cs@, p as int) >= n || cs@[ws_end(cs@, p as int)] != '@',
                p <= n,
                n == cs@.len(),
                cs@ == input@,
                b == ident_end(cs@, ws_end(cs@, 0)),
            decreases n - p,
        {
            let k = skip_ws(&cs, p);
            if k >= n || cs[k] != '@' {
                proof {
                    assert(flags_fold(cs@, p as int, flags_model(flags)) == (
                        flags_model(flags),
                        k as int,
                    ));
                }
                break ;
            }
            let (fname, q) = match read_ident(&cs, k + 1) {
                Some(t) => t,
                None => {
                    proof {
                        assert(flags_fold(cs@, p as int, flags_model(flags)) == (
                            flags_model(flags),
                            k as int,
                        ));
                        assert(!invocation_ok(input@));
                    }
                    return Err(ParseError::Syntax { pos: k + 1 });
                },
            };
            if str_is(&fname, "derive") {
                let (mut args, q2) = match read_derive_args(&cs, q) {
                    Ok(t) => t,
                    Err(e) => {
                        proof {
                            reveal_strlit("derive");
                            assert(flags_fold(cs@, p as int, flags_model(flags)) == (
                                flags_model(flags),
                                k as int,
                            ));
                            assert(!invocation_ok(input@));
                            assert(input@[k as int] == '@');
                            assert(input@.subrange(k + 1, ident_end(input@, k + 1)) == "derive"@);
                        }
                        return Err(e);
                    },
                };
                let ghost before = flags_model(flags);
                let ghost argsm = strs_model(args@);
                flags.custom_derives.append(&mut args);
                proof {
                    reveal_strlit("derive");
                    assert(flags_model(flags) =~~= FlagsModel {
                        custom_derives: before.custom_derives + argsm,
                        ..before
                    });
                    assert(flags_fold(cs@, p as int, before) == flags_fold(
                        cs@,
                        q2 as int,
                        flags_model(flags),
                    ));
                }
                p = q2;
            } else {
                let ghost before = flags_model(flags);
                let known = apply_simple_flag(&mut flags, &fname);
                if !known {
                    proof {
                        reveal_strlit("derive");
                        assert(flags_fold(cs@, p as int, before) == (before, k as int));
                        assert(!invocation_ok(input@));
                    }
                    return Err(ParseError::UnknownFlag { pos: k + 1, flag: fname });
                }
                proof {
                    reveal_strlit("derive");
                    assert(fname@ != "derive"@);
                    assert(flags_fold(cs@, p as int, before) == flags_fold(
                        cs@,
                        q as int,
                        flags_model(flags),
                    ));
                }
                p = q;
            }
        }
        let k = skip_ws(&cs, p);
        if k >= n {
            assert(!invocation_ok(input@));
            return Err(ParseError::Syntax { pos: k });
        }
        let c = cs[k];
        if c != '{' {
            assert(!invocation_ok(input@));
            if c == '"' || ('0' <= c && c <= '9') || c == '[' || c == 't' || c == 'f' || c == '\''
            {
                return Err(ParseError::NonObjectRoot { pos: k });
            }
            return Err(ParseError::Syntax { pos: k });
        }
        let (entries, j) = match parse_entries(&cs, k + 1) {
            Ok(t) => t,
            Err(e) => {
                proof {
                    if invocation_ok(input@) {
                        let es0 = choose|es: Seq<(Seq<char>, ValueModel)>|
                            #[trigger] entries_ok(es, input@, k + 1) && ws_end(
                                input@,
                                entries_end(es, input@, k + 1),
                            ) == input@.len();
                        assert(!entries_ok(es0, cs@, k + 1));
                    }
                }
                return Err(e);
            },
        };
        let e = skip_ws(&cs, j);
        if e < n {
            proof {
                if invocation_ok(input@) {
                    let es0 = choose|es: Seq<(Seq<char>, ValueModel)>|
                        #[trigger] entries_ok(es, input@, k + 1) && ws_end(
                            input@,
                            entries_end(es, input@, k + 1),
                        ) == input@.len();
                    lemma_entries_unique(es0, model_entries(entries@), cs@, k + 1);
                }
            }
            return Err(ParseError::Syntax { pos: e });
        }
        proof {
            assert(entries_ok(model_entries(entries@), cs@, k + 1));
            assert(ws_end(cs@, entries_end(model_entries(entries@), cs@, k + 1)) == cs@.len());
            assert(invocation_ok(input@));
        }
        Ok(JsonMacroInput { struct_name, flags, content: JsonStruct { entries } })
    }
}

impl JsonStruct {
    /// Parses one braced object literal starting (after whitespace) at `pos`.
    pub fn parse(cs: &Vec<char>, pos: usize) -> (r: Result<(JsonStruct, usize), ParseError>)
        requires
            pos <= cs@.len(),
        ensures
            r matches Ok(p) ==> ({
                let k = ws_end(cs@, pos as int);
                &&& 0 <= k < cs@.len()
                &&& cs@[k] == '{'
                &&& pos < p.1 <= cs@.len()
                &&& entries_ok(model_entries(p.0.entries@), cs@, k + 1)
                &&& p.1 == entries_end(model_entries(p.0.entries@), cs@, k + 1)
            }),
            r matches Err(_) ==> ({
                let k = ws_end(cs@, pos as int);
                k >= cs@.len() || cs@[k] != '{' || (forall|es: Seq<(Seq<char>, ValueModel)>|
                    !(#[trigger] entries_ok(es, cs@, k + 1)))
            }),
    {
        let n = cs.len();
        let k = skip_ws(cs, pos);
        if k >= n || cs[k] != '{' {
            return Err(ParseError::Syntax { pos: k });
        }
        match parse_entries(cs, k + 1) {
            Ok((entries, j)) => Ok((JsonStruct { entries }, j)),
            Err(e) => Err(e),
        }
    }
}

} // verus!
