//! JSON values.  A number that is no integer is carried as it was read; what
//! it counts as is told from the bits of its binary form.
use vstd::prelude::*;
use crate::util::same_text;

verus! {

broadcast use vstd::std_specs::vec::group_vec_axioms;

/// `serde_json::Number`: a number as it was read.
#[verifier::external_type_specification]
#[verifier::external_body]
pub struct ExNumber(serde_json::Number);

/// `serde_json::Value`: a value as it was read.
#[verifier::external_type_specification]
#[verifier::external_body]
pub struct ExValue(serde_json::Value);

#[derive(Debug)]
pub enum Json {
    Null,
    Bool(bool),
    Unsigned(u64),
    Signed(i64),
    Float(serde_json::Number),
    Text(String),
    List(Vec<Json>),
    Object(Vec<Field>),
}

#[derive(Debug)]
pub struct Field {
    pub name: String,
    pub value: Json,
}

/// What a JSON value says.
pub ghost enum JsonModel {
    Null,
    Bool(bool),
    Unsigned(u64),
    Signed(i64),
    Float(serde_json::Number),
    Text(Seq<char>),
    List(Seq<JsonModel>),
    Object(Seq<(Seq<char>, JsonModel)>),
}

/// What a JSON value says.
pub open spec fn model(j: Json) -> JsonModel
    decreases j,
{
    match j {
        Json::Null => JsonModel::Null,
        Json::Bool(b) => JsonModel::Bool(b),
        Json::Unsigned(n) => JsonModel::Unsigned(n),
        Json::Signed(n) => JsonModel::Signed(n),
        Json::Float(n) => JsonModel::Float(n),
        Json::Text(s) => JsonModel::Text(s@),
        Json::List(v) => JsonModel::List(models(v@)),
        Json::Object(f) => JsonModel::Object(field_models(f@)),
    }
}

/// What the values of a list say.
pub open spec fn models(v: Seq<Json>) -> Seq<JsonModel>
    decreases v,
{
    if v.len() == 0 {
        seq![]
    } else {
        models(v.drop_last()).push(model(v.last()))
    }
}

/// What the fields of an object say.
pub open spec fn field_models(f: Seq<Field>) -> Seq<(Seq<char>, JsonModel)>
    decreases f,
{
    if f.len() == 0 {
        seq![]
    } else {
        field_models(f.drop_last()).push((f.last().name@, model(f.last().value)))
    }
}

pub broadcast proof fn lemma_models(v: Seq<Json>)
    ensures
        #[trigger] models(v).len() == v.len(),
        forall|i: int| 0 <= i < v.len() ==> #[trigger] models(v)[i] == model(v[i]),
    decreases v.len(),
{
    if v.len() > 0 {
        lemma_models(v.drop_last());
    }
}

pub broadcast proof fn lemma_field_models(f: Seq<Field>)
    ensures
        #[trigger] field_models(f).len() == f.len(),
        forall|i: int|
            0 <= i < f.len() ==> #[trigger] field_models(f)[i] == (
                f[i].name@,
                model(f[i].value),
            ),
    decreases f.len(),
{
    if f.len() > 0 {
        lemma_field_models(f.drop_last());
    }
}

/// A copy of a value.
pub fn copy_json(j: &Json) -> (r: Json)
    ensures
        model(r) == model(*j),
    decreases j,
{
    match j {
        Json::Null => Json::Null,
        Json::Bool(b) => Json::Bool(*b),
        Json::Unsigned(n) => Json::Unsigned(*n),
        Json::Signed(n) => Json::Signed(*n),
        Json::Float(n) => Json::Float(copy_number(n)),
        Json::Text(s) => Json::Text(s.clone()),
        Json::List(v) => Json::List(copy_list(v)),
        Json::Object(f) => Json::Object(copy_fields(f)),
    }
}

/// A copy of a list of values.
pub fn copy_list(v: &Vec<Json>) -> (r: Vec<Json>)
    ensures
        models(r@) == models(v@),
    decreases v,
{
    broadcast use lemma_models;

    let mut out: Vec<Json> = Vec::new();
    let mut i: usize = 0;
    while i < v.len()
        invariant
            i <= v@.len(),
            out@.len() == i,
            forall|k: int| 0 <= k < i ==> model(#[trigger] out@[k]) == model(v@[k]),
        decreases v@.len() - i,
    {
        out.push(copy_json(&v[i]));
        i += 1;
    }
    assert(models(out@) =~= models(v@));
    out
}

/// A copy of the fields of an object.
pub fn copy_fields(f: &Vec<Field>) -> (r: Vec<Field>)
    ensures
        field_models(r@) == field_models(f@),
    decreases f,
{
    broadcast use lemma_field_models;

    let mut out: Vec<Field> = Vec::new();
    let mut i: usize = 0;
    while i < f.len()
        invariant
            i <= f@.len(),
            out@.len() == i,
            forall|k: int|
                0 <= k < i ==> (#[trigger] out@[k]).name@ == f@[k].name@ && model(out@[k].value)
                    == model(f@[k].value),
        decreases f@.len() - i,
    {
        out.push(Field { name: f[i].name.clone(), value: copy_json(&f[i].value) });
        i += 1;
    }
    assert(field_models(out@) =~= field_models(f@));
    out
}

// ---------------------------------------------------------------------------
// Objects
// ---------------------------------------------------------------------------

/// The value of a field, where there is one of that name.
pub open spec fn found(f: Seq<(Seq<char>, JsonModel)>, name: Seq<char>) -> Option<JsonModel>
    decreases f.len(),
{
    if f.len() == 0 {
        None
    } else if f[0].0 == name {
        Some(f[0].1)
    } else {
        found(f.skip(1), name)
    }
}

/// The fields with one of them set: in its place where it is there, otherwise
/// at the end.
pub open spec fn with_field(
    f: Seq<(Seq<char>, JsonModel)>,
    name: Seq<char>,
    value: JsonModel,
) -> Seq<(Seq<char>, JsonModel)>
    decreases f.len(),
{
    if f.len() == 0 {
        seq![(name, value)]
    } else if f[0].0 == name {
        seq![(name, value)] + f.skip(1)
    } else {
        seq![f[0]] + with_field(f.skip(1), name, value)
    }
}

/// The fields of an object; none where a value is no object.
pub open spec fn fields_of(j: JsonModel) -> Seq<(Seq<char>, JsonModel)> {
    match j {
        JsonModel::Object(f) => f,
        _ => seq![],
    }
}

/// The value of a field of an object.
pub open spec fn get(j: JsonModel, name: Seq<char>) -> Option<JsonModel> {
    found(fields_of(j), name)
}

/// A field that has been set reads as it was set, and no other changes.
pub broadcast proof fn law_set_then_get(
    f: Seq<(Seq<char>, JsonModel)>,
    name: Seq<char>,
    value: JsonModel,
    other: Seq<char>,
)
    ensures
        #[trigger] found(with_field(f, name, value), other) == if other == name {
            Some(value)
        } else {
            found(f, other)
        },
    decreases f.len(),
{
    let g = with_field(f, name, value);
    reveal_with_fuel(found, 2);
    if f.len() == 0 {
        assert(g[0].0 == name);
        assert(g.skip(1) =~= Seq::<(Seq<char>, JsonModel)>::empty());
    } else if f[0].0 == name {
        assert(g.skip(1) =~= f.skip(1));
    } else {
        law_set_then_get(f.skip(1), name, value, other);
        assert(g.skip(1) =~= with_field(f.skip(1), name, value));
    }
}

/// The index of a field.
fn field_index(f: &Vec<Field>, name: &str) -> (r: Option<usize>)
    ensures
        match r {
            Some(i) => i < f@.len() && f@[i as int].name@ == name@ && forall|k: int|
                0 <= k < i ==> (#[trigger] f@[k]).name@ != name@,
            None => forall|k: int| 0 <= k < f@.len() ==> (#[trigger] f@[k]).name@ != name@,
        },
{
    let mut i: usize = 0;
    while i < f.len()
        invariant
            i <= f@.len(),
            forall|k: int| 0 <= k < i ==> (#[trigger] f@[k]).name@ != name@,
        decreases f@.len() - i,
    {
        if same_text(f[i].name.as_str(), name) {
            return Some(i);
        }
        i += 1;
    }
    None
}

proof fn lemma_found_at(f: Seq<(Seq<char>, JsonModel)>, name: Seq<char>, i: int)
    requires
        0 <= i <= f.len(),
        forall|k: int| 0 <= k < i ==> (#[trigger] f[k]).0 != name,
        i < f.len() ==> f[i].0 == name,
    ensures
        found(f, name) == if i < f.len() {
            Some(f[i].1)
        } else {
            None
        },
        forall|value: JsonModel| #[trigger]
            with_field(f, name, value) == if i < f.len() {
                f.update(i, (name, value))
            } else {
                f.push((name, value))
            },
    decreases i,
{
    if i > 0 {
        let t = f.skip(1);
        assert(f[0].0 != name);
        assert forall|k: int| 0 <= k < i - 1 implies (#[trigger] t[k]).0 != name by {
            assert(t[k] == f[k + 1]);
        }
        lemma_found_at(t, name, i - 1);
        assert forall|value: JsonModel| #[trigger]
            with_field(f, name, value) == if i < f.len() {
                f.update(i, (name, value))
            } else {
                f.push((name, value))
            } by {
            let rest = with_field(t, name, value);
            if i < f.len() {
                assert(seq![f[0]] + rest =~= f.update(i, (name, value)));
            } else {
                assert(seq![f[0]] + rest =~= f.push((name, value)));
            }
        }
    } else {
        assert forall|value: JsonModel| #[trigger]
            with_field(f, name, value) == if i < f.len() {
                f.update(i, (name, value))
            } else {
                f.push((name, value))
            } by {
            if i < f.len() {
                assert(seq![(name, value)] + f.skip(1) =~= f.update(0, (name, value)));
            } else {
                assert(seq![(name, value)] =~= f.push((name, value)));
            }
        }
    }
}

/// The value of a field.
pub fn find_field<'a>(f: &'a Vec<Field>, name: &str) -> (r: Option<&'a Json>)
    ensures
        match r {
            Some(v) => found(field_models(f@), name@) == Some(model(*v)),
            None => found(field_models(f@), name@) is None,
        },
{
    broadcast use lemma_field_models;

    match field_index(f, name) {
        Some(i) => {
            proof {
                lemma_found_at(field_models(f@), name@, i as int);
            }
            Some(&f[i].value)
        },
        None => {
            proof {
                lemma_found_at(field_models(f@), name@, f@.len() as int);
            }
            None
        },
    }
}

/// Set a field.
pub fn set_field(f: &mut Vec<Field>, name: &str, value: Json)
    ensures
        field_models(final(f)@) == with_field(field_models(old(f)@), name@, model(value)),
{
    broadcast use lemma_field_models;

    let ghost before = field_models(f@);
    match field_index(f, name) {
        Some(i) => {
            proof {
                lemma_found_at(before, name@, i as int);
            }
            f[i] = Field { name: name.to_owned(), value };
            assert(field_models(f@) =~= before.update(i as int, (name@, model(value))));
        },
        None => {
            proof {
                lemma_found_at(before, name@, f@.len() as int);
            }
            f.push(Field { name: name.to_owned(), value });
            assert(field_models(f@) =~= before.push((name@, model(value))));
        },
    }
}

/// The value of a field of an object.
pub fn get_field<'a>(j: &'a Json, name: &str) -> (r: Option<&'a Json>)
    ensures
        match r {
            Some(v) => get(model(*j), name@) == Some(model(*v)),
            None => get(model(*j), name@) is None,
        },
{
    match j {
        Json::Object(f) => find_field(f, name),
        _ => None,
    }
}

// ---------------------------------------------------------------------------
// Numbers that are no integers
// ---------------------------------------------------------------------------

/// The bits of a number in the binary form of double precision.
pub uninterp spec fn float_bits(number: serde_json::Number) -> u64;

/// `serde_json::Number::as_f64`: the number in double precision, by its bits.
#[verifier::external_body]
fn number_bits(number: &serde_json::Number) -> (r: u64)
    ensures
        r == float_bits(*number),
{
    number.as_f64().unwrap_or_default().to_bits()
}

/// `serde_json::Number::clone`: the same number.
#[verifier::external_body]
fn copy_number(number: &serde_json::Number) -> (r: serde_json::Number)
    ensures
        r == *number,
{
    number.clone()
}

pub open spec fn two_to(k: nat) -> nat
    decreases k,
{
    if k == 0 {
        1
    } else {
        2 * two_to((k - 1) as nat)
    }
}

/// The whole part of a number in double precision, given by its bits: a sign,
/// eleven bits of exponent and fifty-two of fraction.  It is zero where the
/// number is negative or above the largest 32-bit number.
pub open spec fn whole_part(bits: u64) -> u32 {
    let exponent = (bits as int / 0x10_0000_0000_0000) % 2048;
    let scaled = 0x10_0000_0000_0000 + bits as int % 0x10_0000_0000_0000;
    let unit = two_to((1075 - exponent) as nat) as int;
    if bits >= 0x8000_0000_0000_0000 || exponent < 1023 || exponent > 1054 {
        0
    } else if scaled / unit == u32::MAX && scaled % unit != 0 {
        0
    } else {
        (scaled / unit) as u32
    }
}

proof fn lemma_two_to_grows(a: nat, b: nat)
    requires
        a <= b,
    ensures
        two_to(a) <= two_to(b),
        two_to(a) >= 1,
    decreases b,
{
    if b > 0 {
        lemma_two_to_grows(
            if a == b {
                (a - 1) as nat
            } else {
                a
            },
            (b - 1) as nat,
        );
    }
}

fn power_of_two(k: u64) -> (r: u64)
    requires
        k <= 52,
    ensures
        r == two_to(k as nat),
{
    let mut r: u64 = 1;
    let mut i: u64 = 0;
    while i < k
        invariant
            i <= k <= 52,
            r == two_to(i as nat),
        decreases k - i,
    {
        proof {
            lemma_two_to_grows((i + 1) as nat, 52);
            reveal_with_fuel(two_to, 53);
        }
        r = 2 * r;
        i += 1;
    }
    r
}

/// The whole part of a number that is no integer.
pub fn whole_number(number: &serde_json::Number) -> (r: u32)
    ensures
        r == whole_part(float_bits(*number)),
{
    let bits: u64 = number_bits(number);
    let exponent: u64 = (bits / 0x10_0000_0000_0000) % 2048;
    if bits >= 0x8000_0000_0000_0000 || exponent < 1023 || exponent > 1054 {
        return 0;
    }
    let scaled: u64 = 0x10_0000_0000_0000 + bits % 0x10_0000_0000_0000;
    let unit: u64 = power_of_two(1075 - exponent);
    proof {
        lemma_two_to_grows(21, (1075 - exponent) as nat);
        reveal_with_fuel(two_to, 22);
    }
    let whole: u64 = scaled / unit;
    assert(whole <= u32::MAX) by (nonlinear_arith)
        requires
            whole == scaled / unit,
            scaled < 0x20_0000_0000_0000,
            unit >= 0x20_0000,
    ;
    if whole == 0xffff_ffff && scaled % unit != 0 {
        0
    } else {
        whole as u32
    }
}

// ---------------------------------------------------------------------------
// Text
// ---------------------------------------------------------------------------

/// What a value holds.
pub uninterp spec fn json_contents(value: serde_json::Value) -> JsonModel;

/// The parts of a `serde_json::Value`, one for one: integers by their sign,
/// other numbers as they are, and the fields of an object in their order.
#[verifier::external_body]
fn json_of(value: serde_json::Value) -> (r: Json)
    ensures
        model(r) == json_contents(value),
{
    match value {
        serde_json::Value::Null => Json::Null,
        serde_json::Value::Bool(b) => Json::Bool(b),
        serde_json::Value::Number(n) => match (n.as_u64(), n.as_i64()) {
            (Some(u), _) => Json::Unsigned(u),
            (None, Some(i)) => Json::Signed(i),
            (None, None) => Json::Float(n),
        },
        serde_json::Value::String(s) => Json::Text(s),
        serde_json::Value::Array(a) => Json::List(a.into_iter().map(json_of).collect()),
        serde_json::Value::Object(o) => Json::Object(
            o.into_iter().map(|(name, v)| Field { name, value: json_of(v) }).collect()),
    }
}

/// The value that a text in JSON stands for; `None` where it is malformed.
pub uninterp spec fn parsed_json(bytes: Seq<u8>) -> Option<JsonModel>;

/// `serde_json::from_slice`: the value that a text in JSON stands for, where
/// it is well-formed.
#[verifier::external_body]
fn parse_value(bytes: &[u8]) -> (r: Option<serde_json::Value>)
    ensures
        parsed_json(bytes@) == match r {
            Some(v) => Some(json_contents(v)),
            None => None,
        },
{
    serde_json::from_slice(bytes).ok()
}

/// The value that a text in JSON stands for, where it is well-formed.
pub fn parse_json(bytes: &[u8]) -> (r: Option<Json>)
    ensures
        parsed_json(bytes@) == match r {
            Some(j) => Some(model(j)),
            None => None,
        },
{
    match parse_value(bytes) {
        Some(v) => Some(json_of(v)),
        None => None,
    }
}

/// How many lists and objects may stand in each other in a text that is read.
pub const MAX_NESTING: usize = 127;

/// Whether fields have names of their own and values that read back as they
/// were written.
pub open spec fn fields_readable(f: Seq<(Seq<char>, JsonModel)>, depth: nat) -> bool
    decreases depth, 1nat,
{
    &&& forall|i: int, k: int| 0 <= i < k < f.len() ==> (#[trigger] f[i]).0 != (#[trigger] f[k]).0
    &&& forall|k: int| 0 <= k < f.len() ==> readable((#[trigger] f[k]).1, depth)
}

/// Whether a value reads back as it was written: it holds no fraction and no
/// two fields of one name, a signed number is negative, and lists and objects
/// stand in each other no deeper than given.
pub open spec fn readable(j: JsonModel, depth: nat) -> bool
    decreases depth, 0nat,
{
    match j {
        JsonModel::Signed(n) => n < 0,
        JsonModel::Float(_) => false,
        JsonModel::List(v) => depth > 0 && forall|k: int|
            0 <= k < v.len() ==> readable(#[trigger] v[k], (depth - 1) as nat),
        JsonModel::Object(f) => depth > 0 && fields_readable(f, (depth - 1) as nat),
        _ => true,
    }
}

/// The `serde_json::Value` that is built from a model.
pub uninterp spec fn built_value(j: JsonModel) -> serde_json::Value;

/// A `serde_json::Value` of the same parts, one for one; of fields of one name
/// the last one counts.  A value that reads back holds what it was built from.
#[verifier::external_body]
fn value_of(j: &Json) -> (r: serde_json::Value)
    ensures
        r == built_value(model(*j)),
        readable(model(*j), MAX_NESTING as nat) ==> json_contents(r) == model(*j),
{
    match j {
        Json::Null => serde_json::Value::Null,
        Json::Bool(b) => serde_json::Value::Bool(*b),
        Json::Unsigned(n) => serde_json::Value::from(*n),
        Json::Signed(n) => serde_json::Value::from(*n),
        Json::Float(n) => serde_json::Value::Number(n.clone()),
        Json::Text(s) => serde_json::Value::String(s.clone()),
        Json::List(v) => serde_json::Value::Array(v.iter().map(value_of).collect()),
        Json::Object(f) => serde_json::Value::Object(
            f.iter().map(|x| (x.name.clone(), value_of(&x.value))).collect()),
    }
}

/// The text of a value in JSON, set out over lines.
pub uninterp spec fn pretty_text(value: serde_json::Value) -> Seq<u8>;

/// `serde_json::to_vec_pretty`: the text of a value, set out over lines.
/// Nothing in a `serde_json::Value` can fail to be written.  A text with a
/// line end behind it is read by `serde_json::from_slice` as the value that it
/// was written from, but for fractions, whose last digit may change, and for
/// deeper nesting than is read.
#[verifier::external_body]
fn pretty_bytes(value: &serde_json::Value) -> (r: Option<Vec<u8>>)
    ensures
        r is Some,
        (r->0)@ == pretty_text(*value),
        readable(json_contents(*value), MAX_NESTING as nat) ==> parsed_json(
            (r->0)@.push(0x0a),
        ) == Some(json_contents(*value)),
{
    serde_json::to_vec_pretty(value).ok()
}

/// The bytes of an optional vector.
pub open spec fn opt_bytes(b: Option<Vec<u8>>) -> Option<Seq<u8>> {
    match b {
        Some(v) => Some(v@),
        None => None,
    }
}

/// A document as it is written: set out over lines, with a line end behind.
pub open spec fn document_text(j: JsonModel) -> Seq<u8> {
    pretty_text(built_value(j)).push(0x0a)
}

/// A document as it is written.  It is there for every document, and is read
/// as the document that it was written from.
pub fn document_bytes(document: &Json) -> (r: Option<Vec<u8>>)
    ensures
        r is Some,
        (r->0)@ == document_text(model(*document)),
        readable(model(*document), MAX_NESTING as nat) ==> parsed_json((r->0)@) == Some(
            model(*document),
        ),
{
    let value = value_of(document);
    match pretty_bytes(&value) {
        Some(b) => {
            let mut out = b;
            out.push(0x0a);
            Some(out)
        },
        None => None,
    }
}

} // verus!
