use vstd::prelude::*;

verus! {

/// The FlatBuffers name of a Rust field type: the five known scalar and
/// string types map to their FlatBuffers names, anything else is kept with
/// an `Unknown_` prefix.
pub open spec fn fbs_type_of(rust_type: Seq<char>) -> Seq<char> {
    if rust_type == "i32"@ {
        "int32"@
    } else if rust_type == "i64"@ {
        "int64"@
    } else if rust_type == "f32"@ {
        "float"@
    } else if rust_type == "f64"@ {
        "double"@
    } else if rust_type == "String"@ {
        "string"@
    } else {
        "Unknown_"@ + rust_type
    }
}

/// Whether two string slices hold the same characters.
fn same_text(a: &str, b: &str) -> (r: bool)
    ensures
        r == (a@ == b@),
{
    String::from_str(a) == String::from_str(b)
}

pub fn map_rust_type_to_fbs(rust_type: &str) -> (r: String)
    ensures
        r@ == fbs_type_of(rust_type@),
{
    proof {
        reveal_strlit("i32");
        reveal_strlit("i64");
        reveal_strlit("f32");
        reveal_strlit("f64");
        reveal_strlit("String");
    }
    if same_text(rust_type, "i32") {
        String::from_str("int32")
    } else if same_text(rust_type, "i64") {
        String::from_str("int64")
    } else if same_text(rust_type, "f32") {
        String::from_str("float")
    } else if same_text(rust_type, "f64") {
        String::from_str("double")
    } else if same_text(rust_type, "String") {
        String::from_str("string")
    } else {
        let mut r = String::from_str("Unknown_");
        r.append(rust_type);
        r
    }
}

/// The schema line of one field: `  name: type;`.
pub open spec fn field_line(name: Seq<char>, fbs_type: Seq<char>) -> Seq<char> {
    "  "@ + name + ": "@ + fbs_type + ";\n"@
}

/// The schema lines of the first `n` fields, in order.
pub open spec fn field_lines(fields: Seq<(Seq<char>, Seq<char>)>, n: nat) -> Seq<char>
    decreases n,
{
    if n == 0 || n > fields.len() {
        Seq::empty()
    } else {
        field_lines(fields, (n - 1) as nat) + field_line(fields[n - 1].0, fields[n - 1].1)
    }
}

/// The character sequences of pairs of strings.
pub open spec fn pair_views(fields: Seq<(String, String)>) -> Seq<(Seq<char>, Seq<char>)> {
    fields.map_values(|p: (String, String)| (p.0@, p.1@))
}

/// The FlatBuffers schema of one table: its header, a line per field, and the
/// closing `root_type` declaration.
pub open spec fn fbs_schema_of(struct_name: Seq<char>, fields: Seq<(Seq<char>, Seq<char>)>) -> Seq<
    char,
> {
    "table "@ + struct_name + " {\n"@ + field_lines(fields, fields.len()) + "}\n\n"@
        + "root_type "@ + struct_name + ";\n"@
}

pub fn generate_fbs_schema(struct_name: &str, fields: &[(String, String)]) -> (r: String)
    ensures
        r@ == fbs_schema_of(struct_name@, pair_views(fields@)),
{
    let mut schema = String::from_str("table ");
    schema.append(struct_name);
    schema.append(" {\n");
    let mut i: usize = 0;
    while i < fields.len()
        invariant
            i <= fields@.len(),
            schema@ == "table "@ + struct_name@ + " {\n"@ + field_lines(pair_views(fields@), i as nat),
        decreases fields@.len() - i,
    {
        schema.append("  ");
        schema.append(fields[i].0.as_str());
        schema.append(": ");
        schema.append(fields[i].1.as_str());
        schema.append(";\n");
        i = i + 1;
        assert(schema@ == "table "@ + struct_name@ + " {\n"@ + field_lines(
            pair_views(fields@),
            i as nat,
        ));
    }
    schema.append("}\n\n");
    schema.append("root_type ");
    schema.append(struct_name);
    schema.append(";\n");
    schema
}

/// The pattern of a struct definition: group 1 its name, group 2 its body.
pub const STRUCT_PATTERN: &'static str = "struct\\s+(\\w+)\\s*\\{\\s*([^}]*)\\s*\\}";

/// The pattern of one field: group 1 its name, group 2 its type.
pub const FIELD_PATTERN: &'static str = "(\\w+):\\s*([\\w<>\\[\\]]+),?";

/// The texts of capture groups 1 and 2 of each successive non-overlapping
/// match of `pattern` in `text`, or `None` when `pattern` does not compile.
pub uninterp spec fn regex_group_pairs(pattern: Seq<char>, dot_all: bool, text: Seq<char>) -> Option<
    Seq<(Seq<char>, Seq<char>)>,
>;

pub open spec fn pairs_option_view(r: Option<Vec<(String, String)>>) -> Option<
    Seq<(Seq<char>, Seq<char>)>,
> {
    match r {
        Some(v) => Some(pair_views(v@)),
        None => None,
    }
}

/// Relies on regex's `RegexBuilder::build` (with `dot_matches_new_line`) and
/// `Regex::captures_iter`: for each non-overlapping match in order, the text
/// of groups 1 and 2 (empty for a group that took no part); `None` when the
/// pattern does not compile.
#[verifier::external_body]
fn group_pairs(pattern: &str, dot_all: bool, text: &str) -> (r: Option<Vec<(String, String)>>)
    ensures
        pairs_option_view(r) == regex_group_pairs(pattern@, dot_all, text@),
{
    let re = regex::RegexBuilder::new(pattern).dot_matches_new_line(dot_all).build().ok()?;
    Some(
        re.captures_iter(text).map(
            |c| (c.get(1).map_or("", |m| m.as_str()).to_string(), c.get(2).map_or("", |m| m.as_str()).to_string()),
        ).collect(),
    )
}

/// Each field's name with its type mapped to its FlatBuffers name.
pub open spec fn mapped_fields(fields: Seq<(Seq<char>, Seq<char>)>) -> Seq<(Seq<char>, Seq<char>)> {
    fields.map_values(|p: (Seq<char>, Seq<char>)| (p.0, fbs_type_of(p.1)))
}

/// Maps the type of each `(name, rust_type)` pair to its FlatBuffers name.
pub fn fbs_fields(fields: &[(String, String)]) -> (r: Vec<(String, String)>)
    ensures
        pair_views(r@) == mapped_fields(pair_views(fields@)),
{
    let mut out: Vec<(String, String)> = Vec::new();
    let mut i: usize = 0;
    while i < fields.len()
        invariant
            i <= fields@.len(),
            pair_views(out@) =~= mapped_fields(pair_views(fields@.subrange(0, i as int))),
        decreases fields@.len() - i,
    {
        let name = String::from_str(fields[i].0.as_str());
        let ty = map_rust_type_to_fbs(fields[i].1.as_str());
        let ghost before = out@;
        out.push((name, ty));
        assert(pair_views(out@) =~= pair_views(before).push(
            (fields@[i as int].0@, fbs_type_of(fields@[i as int].1@)),
        ));
        assert(pair_views(fields@.subrange(0, i + 1)) =~= pair_views(fields@.subrange(0, i as int)).push(
            (fields@[i as int].0@, fields@[i as int].1@),
        ));
        i = i + 1;
        assert(pair_views(out@) =~= mapped_fields(pair_views(fields@.subrange(0, i as int))));
    }
    assert(fields@.subrange(0, fields@.len() as int) =~= fields@);
    out
}

/// The schema of each struct found by the struct pattern, given the field
/// captures of its body.
pub open spec fn scraped_schema(s: (Seq<char>, Seq<char>)) -> Option<(Seq<char>, Seq<char>)> {
    match regex_group_pairs(FIELD_PATTERN@, false, s.1) {
        Some(fields) => Some((s.0, fbs_schema_of(s.0, mapped_fields(fields)))),
        None => None,
    }
}

/// Finds each `struct Name { ... }` in Rust source text and gives, in order,
/// its name and its FlatBuffers schema, with every `name: Type` field of its
/// body mapped. `None` when a pattern does not compile.
pub fn scrape_fbs_schemas(source: &str) -> (r: Option<Vec<(String, String)>>)
    ensures
        r is Some <==> (regex_group_pairs(STRUCT_PATTERN@, true, source@) matches Some(structs)
            && forall|i: int| 0 <= i < structs.len() ==> #[trigger] scraped_schema(structs[i]) is Some),
        r matches Some(v) ==> regex_group_pairs(STRUCT_PATTERN@, true, source@) matches Some(structs)
            && pair_views(v@) == structs.map_values(
            |s: (Seq<char>, Seq<char>)| scraped_schema(s)->Some_0,
        ),
{
    let structs = match group_pairs(STRUCT_PATTERN, true, source) {
        Some(v) => v,
        None => {
            return None;
        },
    };
    let ghost caps = pair_views(structs@);
    let mut out: Vec<(String, String)> = Vec::new();
    let mut i: usize = 0;
    while i < structs.len()
        invariant
            i <= structs@.len(),
            caps == pair_views(structs@),
            regex_group_pairs(STRUCT_PATTERN@, true, source@) == Some(caps),
            forall|j: int| 0 <= j < i ==> #[trigger] scraped_schema(caps[j]) is Some,
            pair_views(out@) =~= caps.subrange(0, i as int).map_values(
                |s: (Seq<char>, Seq<char>)| scraped_schema(s)->Some_0,
            ),
        decreases structs@.len() - i,
    {
        let name = structs[i].0.as_str();
        let fields = match group_pairs(FIELD_PATTERN, false, structs[i].1.as_str()) {
            Some(f) => f,
            None => {
                assert(scraped_schema(caps[i as int]) is None);
                return None;
            },
        };
        let mapped = fbs_fields(fields.as_slice());
        let schema = generate_fbs_schema(name, mapped.as_slice());
        assert(scraped_schema(caps[i as int]) == Some((caps[i as int].0, schema@)));
        let ghost before = out@;
        out.push((String::from_str(name), schema));
        assert(pair_views(out@) =~= pair_views(before).push((caps[i as int].0, schema@)));
        assert(caps.subrange(0, i + 1) =~= caps.subrange(0, i as int).push(caps[i as int]));
        i = i + 1;
        assert(pair_views(out@) =~= caps.subrange(0, i as int).map_values(
            |s: (Seq<char>, Seq<char>)| scraped_schema(s)->Some_0,
        ));
    }
    assert(caps.subrange(0, caps.len() as int) =~= caps);
    Some(out)
}

} // verus!
