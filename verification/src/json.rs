//! Samples in JSON.
use crate::dataset::{chunk_bounds, chunk_ranges};
use crate::text::{
    add_items, decode_text, decoded, lines_from, read_lines, same_text, text_lines, texts, trim,
    trimmed,
};
use crate::words::WORD;
use serde_json::{Number, Value};
use vstd::prelude::*;

verus! {

/// A JSON value.
#[derive(Debug)]
pub enum JsonNode {
    Null,
    Bool(bool),
    /// A number: as a whole number where it is one, as the bit pattern of a double-precision
    /// value, and as it is written.
    Number { integer: Option<i64>, double: Option<u64>, text: String },
    Text(String),
    List(Vec<JsonNode>),
    Record(Vec<(String, JsonNode)>),
}

/// A JSON value as a value.
pub enum JsonModel {
    Null,
    Bool(bool),
    Number { integer: Option<i64>, double: Option<u64>, text: Seq<char> },
    Text(Seq<char>),
    List(Seq<JsonModel>),
    Record(Seq<(Seq<char>, JsonModel)>),
}

impl JsonNode {
    /// The value.
    pub open spec fn model(self) -> JsonModel
        decreases self,
    {
        match self {
            JsonNode::Null => JsonModel::Null,
            JsonNode::Bool(b) => JsonModel::Bool(b),
            JsonNode::Number { integer, double, text } => JsonModel::Number {
                integer,
                double,
                text: text@,
            },
            JsonNode::Text(s) => JsonModel::Text(s@),
            JsonNode::List(items) => JsonModel::List(
                Seq::new(
                    items@.len(),
                    |i: int|
                        if 0 <= i < items@.len() {
                            items@[i].model()
                        } else {
                            JsonModel::Null
                        },
                ),
            ),
            JsonNode::Record(fields) => JsonModel::Record(
                Seq::new(
                    fields@.len(),
                    |i: int|
                        if 0 <= i < fields@.len() {
                            (fields@[i].0@, fields@[i].1.model())
                        } else {
                            (Seq::empty(), JsonModel::Null)
                        },
                ),
            ),
        }
    }
}

/// `serde_json::Value`, a JSON value as that crate holds it.
#[verifier::external_type_specification]
#[verifier::external_body]
pub struct ExValue(serde_json::Value);

/// What `serde_json::from_str` reads a text as. `None` where it is no JSON.
pub uninterp spec fn json_of(text: Seq<char>) -> Option<JsonModel>;

/// Takes a `serde_json::Value` apart, variant by variant. A number is handed over by
/// `Number::as_i64`, by the bit pattern of `Number::as_f64` and by `Number::to_string`.
/// Nothing is claimed of it here; `parse_json` claims what it and the parse do together.
#[verifier::external_body]
fn json_node(value: Value) -> JsonNode {
    match value {
        Value::Null => JsonNode::Null,
        Value::Bool(b) => JsonNode::Bool(b),
        Value::Number(n) => JsonNode::Number {
            integer: n.as_i64(),
            double: n.as_f64().map(|x| x.to_bits()),
            text: n.to_string(),
        },
        Value::String(s) => JsonNode::Text(s),
        Value::Array(items) => JsonNode::List(items.into_iter().map(json_node).collect()),
        Value::Object(fields) =>
            JsonNode::Record(fields.into_iter().map(|(k, v)| (k, json_node(v))).collect()),
    }
}

/// Calls `serde_json::from_str` for a `serde_json::Value`. What it reads depends on the text
/// alone; a text that is no JSON gives `None`.
#[verifier::external_body]
fn parse_json(text: &str) -> (r: Option<JsonNode>)
    ensures
        match (r, json_of(text@)) {
            (Some(node), Some(model)) => node.model() == model,
            (None, None) => true,
            _ => false,
        },
{
    serde_json::from_str::<Value>(text).ok().map(json_node)
}

/// What `serde_json` writes for a value.
pub uninterp spec fn json_text_of(value: JsonModel) -> Seq<char>;

/// Puts a `serde_json::Value` together, variant by variant. A number is made from the way it
/// is written, as `u64`, as `i64` or as a double-precision value, whichever it is first; one
/// that is written as none of them, or is not finite, becomes `Value::Null`. Nothing is claimed of it here;
/// `write_json` claims what it and the writing do together.
#[verifier::external_body]
fn json_value(node: &JsonNode) -> Value {
    match node {
        JsonNode::Null => Value::Null,
        JsonNode::Bool(b) => Value::Bool(*b),
        JsonNode::Number { text, .. } => text.parse::<u64>().map(Number::from)
            .or(text.parse::<i64>().map(Number::from)).ok()
            .or_else(|| text.parse().ok().and_then(Number::from_f64))
            .map_or(Value::Null, Value::Number),
        JsonNode::Text(s) => Value::String(s.clone()),
        JsonNode::List(items) => Value::Array(items.iter().map(json_value).collect()),
        JsonNode::Record(fields) =>
            Value::Object(fields.iter().map(|(k, v)| (k.clone(), json_value(v))).collect()),
    }
}

/// Calls `serde_json::Value::to_string`. What it writes depends on the value alone.
#[verifier::external_body]
fn write_json(node: &JsonNode) -> (r: String)
    ensures
        r@ == json_text_of(node.model()),
{
    json_value(node).to_string()
}

// ---------------------------------------------------------------------------
// Samples
// ---------------------------------------------------------------------------

/// One sample of a dataset.
#[derive(Debug)]
pub enum Sample {
    /// Text that is still to be split into tokens.
    Text(String),
    /// Tokens.
    Ids(Vec<u32>),
    /// Embeddings, row by row, as bit patterns of double-precision values.
    Rows { seq_len: usize, values: Vec<u64> },
}

/// A sample as a value.
#[verifier::ext_equal]
pub enum SampleModel {
    Text(Seq<char>),
    Ids(Seq<u32>),
    Rows { seq_len: int, values: Seq<u64> },
}

impl View for Sample {
    type V = SampleModel;

    open spec fn view(&self) -> SampleModel {
        match *self {
            Sample::Text(s) => SampleModel::Text(s@),
            Sample::Ids(ids) => SampleModel::Ids(ids@),
            Sample::Rows { seq_len, values } => SampleModel::Rows {
                seq_len: seq_len as int,
                values: values@,
            },
        }
    }
}

/// The samples of a list, as values.
pub open spec fn sample_models(list: Seq<Sample>) -> Seq<SampleModel> {
    list.map_values(|s: Sample| s@)
}

/// The first entry of a record under `key`.
pub open spec fn entry(fields: Seq<(Seq<char>, JsonModel)>, key: Seq<char>) -> Option<JsonModel>
    decreases fields.len(),
{
    if fields.len() == 0 {
        None
    } else if fields[0].0 == key {
        Some(fields[0].1)
    } else {
        entry(fields.skip(1), key)
    }
}

/// What a record holds under `key`. What is no record holds nothing.
pub open spec fn field(m: JsonModel, key: Seq<char>) -> Option<JsonModel> {
    match m {
        JsonModel::Record(fields) => entry(fields, key),
        _ => None,
    }
}

/// What stands under the first of two keys that is there.
pub open spec fn first_of_two(m: JsonModel, a: Seq<char>, b: Seq<char>) -> Option<JsonModel> {
    if field(m, a) is Some {
        field(m, a)
    } else {
        field(m, b)
    }
}

/// What stands under the first of three keys that is there.
pub open spec fn first_field(m: JsonModel, a: Seq<char>, b: Seq<char>, c: Seq<char>) -> Option<JsonModel> {
    if field(m, a) is Some {
        field(m, a)
    } else {
        first_of_two(m, b, c)
    }
}

/// A value as a bit pattern of double precision; zero for what is no number.
pub open spec fn double_of(m: JsonModel) -> u64 {
    match m {
        JsonModel::Number { double, .. } => match double {
            Some(bits) => bits,
            None => 0,
        },
        _ => 0,
    }
}

/// Values as bit patterns.
pub open spec fn doubles(items: Seq<JsonModel>) -> Seq<u64> {
    items.map_values(|m: JsonModel| double_of(m))
}

/// The whole numbers among the values, each modulo 2^32.
pub open spec fn ids_of(items: Seq<JsonModel>) -> Seq<u32>
    decreases items.len(),
{
    if items.len() == 0 {
        Seq::empty()
    } else {
        let front = ids_of(items.drop_last());
        match items.last() {
            JsonModel::Number { integer, .. } => match integer {
                Some(id) => front.push((id as int % WORD as int) as u32),
                None => front,
            },
            _ => front,
        }
    }
}

/// How many of the values are lists.
pub open spec fn row_count(items: Seq<JsonModel>) -> int
    decreases items.len(),
{
    if items.len() == 0 {
        0
    } else {
        row_count(items.drop_last()) + if items.last() is List {
            1int
        } else {
            0
        }
    }
}

/// The values of those lists, one after the other.
pub open spec fn row_values(items: Seq<JsonModel>) -> Seq<u64>
    decreases items.len(),
{
    if items.len() == 0 {
        Seq::empty()
    } else {
        match items.last() {
            JsonModel::List(row) => row_values(items.drop_last()) + doubles(row),
            _ => row_values(items.drop_last()),
        }
    }
}

/// The sample that a list of rows makes: where it has rows and all have `d_model` values on
/// average.
pub open spec fn rows_sample(items: Seq<JsonModel>, d_model: int) -> Option<SampleModel> {
    let n = row_count(items);
    let values = row_values(items);
    if n > 0 && values.len() == n * d_model {
        Some(SampleModel::Rows { seq_len: n, values })
    } else {
        None
    }
}

/// The sample that a list makes: tokens where it begins with something else than a list and
/// holds whole numbers, else rows.
pub open spec fn list_sample(items: Seq<JsonModel>, d_model: int) -> Option<SampleModel> {
    if items.len() > 0 && !(items[0] is List) && ids_of(items).len() > 0 {
        Some(SampleModel::Ids(ids_of(items)))
    } else {
        rows_sample(items, d_model)
    }
}

/// The sample that a flat list of values makes, `d_model` values to a row.
pub open spec fn flat_sample(items: Seq<JsonModel>, d_model: int) -> Option<SampleModel> {
    if items.len() > 0 && d_model > 0 && items.len() as int % d_model == 0 {
        Some(SampleModel::Rows { seq_len: items.len() as int / d_model, values: doubles(items) })
    } else {
        None
    }
}

/// The sample that a matrix makes: a flat list of values, or a list of rows.
pub open spec fn matrix_sample(items: Seq<JsonModel>, d_model: int) -> Option<SampleModel> {
    if items.len() > 0 && !(items[0] is List) {
        flat_sample(items, d_model)
    } else {
        rows_sample(items, d_model)
    }
}

/// The sample that stands under `embedding`, where that makes one.
pub open spec fn embedding_sample(m: JsonModel, d_model: int) -> Option<SampleModel> {
    match field(m, "embedding"@) {
        Some(JsonModel::List(items)) => matrix_sample(items, d_model),
        _ => None,
    }
}

/// The sample that a value makes: text under `input_text`, `text` or `content`; else a matrix
/// under `embedding`; where there is neither, rows or tokens under `embeddings`, or under
/// `tokens` where there is no such field.
pub open spec fn sample_of(m: JsonModel, d_model: int) -> Option<SampleModel> {
    match first_field(m, "input_text"@, "text"@, "content"@) {
        Some(JsonModel::Text(s)) => Some(SampleModel::Text(s)),
        _ => match embedding_sample(m, d_model) {
            Some(s) => Some(s),
            None => match first_of_two(m, "embeddings"@, "tokens"@) {
                Some(JsonModel::List(items)) => list_sample(items, d_model),
                _ => None,
            },
        },
    }
}

/// The values of a list of nodes.
pub open spec fn node_models(items: Seq<JsonNode>) -> Seq<JsonModel> {
    items.map_values(|n: JsonNode| n.model())
}

/// The values of a list of fields.
pub open spec fn field_models(fields: Seq<(String, JsonNode)>) -> Seq<(Seq<char>, JsonModel)> {
    fields.map_values(|f: (String, JsonNode)| (f.0@, f.1.model()))
}

proof fn lemma_list_model(items: Vec<JsonNode>)
    ensures
        JsonNode::List(items).model() == JsonModel::List(node_models(items@)),
{
    let whole = JsonNode::List(items).model();
    assert(whole->List_0 =~= node_models(items@));
}

proof fn lemma_record_model(fields: Vec<(String, JsonNode)>)
    ensures
        JsonNode::Record(fields).model() == JsonModel::Record(field_models(fields@)),
{
    let whole = JsonNode::Record(fields).model();
    assert(whole->Record_0 =~= field_models(fields@));
}

/// What a node holds under `key`.
fn get<'a>(node: &'a JsonNode, key: &str) -> (r: Option<&'a JsonNode>)
    ensures
        match (r, field(node.model(), key@)) {
            (Some(n), Some(m)) => n.model() == m,
            (None, None) => true,
            _ => false,
        },
{
    match node {
        JsonNode::Record(fields) => {
            let ghost all = field_models(fields@);
            proof {
                lemma_record_model(*fields);
            }
            let mut i: usize = 0;
            assert(all.skip(0) =~= all);
            while i < fields.len()
                invariant
                    i <= fields.len(),
                    all == field_models(fields@),
                    node.model() == JsonModel::Record(all),
                    entry(all, key@) == entry(all.skip(i as int), key@),
                decreases fields.len() - i,
            {
                assert(all.skip(i as int)[0] == all[i as int]);
                if same_text(fields[i].0.as_str(), key) {
                    return Some(&fields[i].1);
                }
                assert(all.skip(i as int).skip(1) =~= all.skip(i + 1));
                i += 1;
            }
            None
        },
        _ => None,
    }
}

/// What stands under the first of two keys that is there.
fn get_either<'a>(node: &'a JsonNode, a: &str, b: &str) -> (r: Option<&'a JsonNode>)
    ensures
        match (r, first_of_two(node.model(), a@, b@)) {
            (Some(n), Some(m)) => n.model() == m,
            (None, None) => true,
            _ => false,
        },
{
    match get(node, a) {
        Some(n) => Some(n),
        None => get(node, b),
    }
}

/// What stands under the first of three keys that is there.
fn get_first<'a>(node: &'a JsonNode, a: &str, b: &str, c: &str) -> (r: Option<&'a JsonNode>)
    ensures
        match (r, first_field(node.model(), a@, b@, c@)) {
            (Some(n), Some(m)) => n.model() == m,
            (None, None) => true,
            _ => false,
        },
{
    match get(node, a) {
        Some(n) => Some(n),
        None => get_either(node, b, c),
    }
}

fn is_list(node: &JsonNode) -> (r: bool)
    ensures
        r == (node.model() is List),
{
    match node {
        JsonNode::List(_) => true,
        _ => false,
    }
}

fn double(node: &JsonNode) -> (r: u64)
    ensures
        r == double_of(node.model()),
{
    match node {
        JsonNode::Number { double, .. } => match double {
            Some(bits) => *bits,
            None => 0,
        },
        _ => 0,
    }
}

/// The low 32 bits of a whole number.
fn low_word(id: i64) -> (r: u32)
    ensures
        r == id as int % WORD as int,
{
    if id >= 0 {
        (id as u64 % WORD) as u32
    } else {
        let back: u64 = (-(id + 1)) as u64 % WORD;
        let ghost q = (-(id + 1)) as int / 4294967296;
        assert(id == -4294967296 * (q + 1) + (4294967295 - back));
        (WORD - 1 - back) as u32
    }
}

fn collect_ids(items: &Vec<JsonNode>) -> (r: Vec<u32>)
    ensures
        r@ == ids_of(node_models(items@)),
{
    let ghost all = node_models(items@);
    let mut r: Vec<u32> = Vec::new();
    let mut i: usize = 0;
    assert(all.take(0) =~= Seq::empty());
    while i < items.len()
        invariant
            i <= items.len(),
            all == node_models(items@),
            r@ == ids_of(all.take(i as int)),
        decreases items.len() - i,
    {
        assert(all.take(i + 1).drop_last() =~= all.take(i as int));
        assert(all.take(i + 1).last() == items@[i as int].model());
        match &items[i] {
            JsonNode::Number { integer, .. } => match integer {
                Some(id) => {
                    r.push(low_word(*id));
                },
                None => {},
            },
            _ => {},
        }
        i += 1;
    }
    assert(all.take(i as int) =~= all);
    r
}

fn put_doubles(out: &mut Vec<u64>, items: &Vec<JsonNode>)
    ensures
        final(out)@ == old(out)@ + doubles(node_models(items@)),
{
    let ghost whole = doubles(node_models(items@));
    let mut i: usize = 0;
    assert(old(out)@ + whole.take(0) =~= old(out)@);
    while i < items.len()
        invariant
            i <= items.len(),
            whole == doubles(node_models(items@)),
            out@ == old(out)@ + whole.take(i as int),
        decreases items.len() - i,
    {
        out.push(double(&items[i]));
        i += 1;
        assert(out@ =~= old(out)@ + whole.take(i as int));
    }
    assert(whole.take(i as int) =~= whole);
}

fn collect_rows(items: &Vec<JsonNode>, d_model: usize) -> (r: Option<Sample>)
    ensures
        match (r, rows_sample(node_models(items@), d_model as int)) {
            (Some(s), Some(m)) => s@ == m,
            (None, None) => true,
            _ => false,
        },
{
    let ghost all = node_models(items@);
    let mut values: Vec<u64> = Vec::new();
    let mut seq_len: usize = 0;
    let mut i: usize = 0;
    assert(all.take(0) =~= Seq::empty());
    while i < items.len()
        invariant
            i <= items.len(),
            all == node_models(items@),
            seq_len == row_count(all.take(i as int)),
            seq_len <= i,
            values@ == row_values(all.take(i as int)),
        decreases items.len() - i,
    {
        assert(all.take(i + 1).drop_last() =~= all.take(i as int));
        assert(all.take(i + 1).last() == items@[i as int].model());
        match &items[i] {
            JsonNode::List(row) => {
                proof {
                    lemma_list_model(*row);
                }
                seq_len += 1;
                put_doubles(&mut values, row);
            },
            _ => {},
        }
        i += 1;
    }
    assert(all.take(i as int) =~= all);
    assert(0 <= seq_len as u128 * d_model as u128 <= u128::MAX) by (nonlinear_arith)
        requires
            0 <= seq_len <= 0xffff_ffff_ffff_ffff,
            0 <= d_model <= 0xffff_ffff_ffff_ffff,
    ;
    if seq_len > 0 && values.len() as u128 == seq_len as u128 * d_model as u128 {
        Some(Sample::Rows { seq_len, values })
    } else {
        None
    }
}

/// The sample that a matrix makes.
fn collect_matrix(items: &Vec<JsonNode>, d_model: usize) -> (r: Option<Sample>)
    ensures
        match (r, matrix_sample(node_models(items@), d_model as int)) {
            (Some(s), Some(m)) => s@ == m,
            (None, None) => true,
            _ => false,
        },
{
    let ghost all = node_models(items@);
    if items.len() == 0 || is_list(&items[0]) {
        return collect_rows(items, d_model);
    }
    if d_model > 0 && items.len() % d_model == 0 {
        let mut values: Vec<u64> = Vec::new();
        put_doubles(&mut values, items);
        assert(values@ =~= doubles(all));
        return Some(Sample::Rows { seq_len: items.len() / d_model, values });
    }
    None
}

/// The sample that a value makes.
pub fn extract_sample(node: &JsonNode, d_model: usize) -> (r: Option<Sample>)
    ensures
        match (r, sample_of(node.model(), d_model as int)) {
            (Some(s), Some(m)) => s@ == m,
            (None, None) => true,
            _ => false,
        },
{
    if let Some(found) = get_first(node, "input_text", "text", "content") {
        if let JsonNode::Text(text) = found {
            return Some(Sample::Text(text.clone()));
        }
    }
    if let Some(JsonNode::List(items)) = get(node, "embedding") {
        proof {
            lemma_list_model(*items);
        }
        if let Some(sample) = collect_matrix(items, d_model) {
            return Some(sample);
        }
    }
    match get_either(node, "embeddings", "tokens") {
        Some(JsonNode::List(items)) => {
            proof {
                lemma_list_model(*items);
            }
            if items.len() > 0 && !is_list(&items[0]) {
                let ids: Vec<u32> = collect_ids(items);
                if ids.len() > 0 {
                    return Some(Sample::Ids(ids));
                }
            }
            collect_rows(items, d_model)
        },
        _ => None,
    }
}

/// The samples that a list of values makes. Values that make none are passed over.
pub open spec fn samples_of(items: Seq<JsonModel>, d_model: int) -> Seq<SampleModel>
    decreases items.len(),
{
    if items.len() == 0 {
        Seq::empty()
    } else {
        let front = samples_of(items.drop_last(), d_model);
        match sample_of(items.last(), d_model) {
            Some(s) => front.push(s),
            None => front,
        }
    }
}

/// The text of a line that is read as JSON: the line itself, or what is left of it when it
/// is trimmed.
pub open spec fn line_text(line: Seq<char>, trim_first: bool) -> Seq<char> {
    if trim_first {
        trimmed(line)
    } else {
        line
    }
}

/// The sample on a line. Blank lines and lines that are no JSON have none.
pub open spec fn line_sample(line: Seq<char>, trim_first: bool, d_model: int) -> Option<SampleModel> {
    if trimmed(line).len() == 0 {
        None
    } else {
        match json_of(line_text(line, trim_first)) {
            Some(m) => sample_of(m, d_model),
            None => None,
        }
    }
}

/// The samples on a list of lines.
pub open spec fn line_samples(lines: Seq<Seq<char>>, trim_first: bool, d_model: int) -> Seq<
    SampleModel,
>
    decreases lines.len(),
{
    if lines.len() == 0 {
        Seq::empty()
    } else {
        let front = line_samples(lines.drop_last(), trim_first, d_model);
        match line_sample(lines.last(), trim_first, d_model) {
            Some(s) => front.push(s),
            None => front,
        }
    }
}

/// The samples of a list of nodes.
pub fn extract_samples(items: &Vec<JsonNode>, d_model: usize) -> (r: Vec<Sample>)
    ensures
        sample_models(r@) == samples_of(node_models(items@), d_model as int),
{
    let ghost all = node_models(items@);
    let mut r: Vec<Sample> = Vec::new();
    let mut i: usize = 0;
    assert(all.take(0) =~= Seq::empty());
    assert(sample_models(r@) =~= Seq::empty());
    while i < items.len()
        invariant
            i <= items.len(),
            all == node_models(items@),
            sample_models(r@) == samples_of(all.take(i as int), d_model as int),
        decreases items.len() - i,
    {
        assert(all.take(i + 1).drop_last() =~= all.take(i as int));
        assert(all.take(i + 1).last() == items@[i as int].model());
        if let Some(s) = extract_sample(&items[i], d_model) {
            let ghost front = sample_models(r@);
            r.push(s);
            assert(sample_models(r@) =~= front.push(s@));
        }
        i += 1;
    }
    assert(all.take(i as int) =~= all);
    r
}

/// The samples on a list of lines.
fn load_lines(lines: &Vec<String>, trim_first: bool, d_model: usize) -> (r: Vec<Sample>)
    ensures
        sample_models(r@) == line_samples(texts(lines@), trim_first, d_model as int),
{
    let ghost all = texts(lines@);
    let mut r: Vec<Sample> = Vec::new();
    let mut i: usize = 0;
    assert(all.take(0) =~= Seq::empty());
    assert(sample_models(r@) =~= Seq::empty());
    while i < lines.len()
        invariant
            i <= lines.len(),
            all == texts(lines@),
            sample_models(r@) == line_samples(all.take(i as int), trim_first, d_model as int),
        decreases lines.len() - i,
    {
        assert(all.take(i + 1).drop_last() =~= all.take(i as int));
        assert(all.take(i + 1).last() == lines@[i as int]@);
        let bare: String = trim(lines[i].as_str());
        if !bare.as_str().is_empty() {
            let node: Option<JsonNode> = if trim_first {
                parse_json(bare.as_str())
            } else {
                parse_json(lines[i].as_str())
            };
            if let Some(n) = node {
                if let Some(s) = extract_sample(&n, d_model) {
                    let ghost front = sample_models(r@);
                    r.push(s);
                    assert(sample_models(r@) =~= front.push(s@));
                }
            }
        }
        i += 1;
    }
    assert(all.take(i as int) =~= all);
    r
}

/// The samples of a file with one JSON value per line. `None` where a line is no text.
pub fn load_jsonl(data: &[u8], d_model: usize) -> (r: Option<Vec<Sample>>)
    ensures
        r is Some <==> text_lines(data@).len() == lines_from(data@, 0).len(),
        r matches Some(samples) ==> sample_models(samples@) == line_samples(
            text_lines(data@),
            false,
            d_model as int,
        ),
{
    let (lines, complete): (Vec<String>, bool) = read_lines(data);
    if complete {
        Some(load_lines(&lines, false, d_model))
    } else {
        None
    }
}

/// The samples of a JSON value: those of its list, or the one that it is.
pub open spec fn value_samples(value: JsonModel, d_model: int) -> Seq<SampleModel> {
    match value {
        JsonModel::List(items) => samples_of(items, d_model),
        m => samples_of(seq![m], d_model),
    }
}

/// The samples of a JSON file that reads as `content`: those of its one value. A file that is
/// no JSON as a whole is read line by line.
pub open spec fn file_samples(data: Seq<u8>, content: Seq<char>, d_model: int) -> Seq<SampleModel> {
    match json_of(content) {
        Some(value) => value_samples(value, d_model),
        None => line_samples(text_lines(data), true, d_model),
    }
}

/// The samples of a JSON file. `None` where it is no text.
pub fn load_json(data: &[u8], d_model: usize) -> (r: Option<Vec<Sample>>)
    ensures
        match (r, decoded(data@)) {
            (Some(samples), Some(content)) => sample_models(samples@) == file_samples(
                data@,
                content,
                d_model as int,
            ),
            (None, None) => true,
            _ => false,
        },
{
    match decode_text(data) {
        Some(content) => match parse_json(content.as_str()) {
            Some(node) => Some(samples_in(&node, d_model)),
            None => {
                let (lines, _): (Vec<String>, bool) = read_lines(data);
                Some(load_lines(&lines, true, d_model))
            },
        },
        None => None,
    }
}

/// The samples of a JSON value: those of its list, or the one that it is.
pub fn samples_in(node: &JsonNode, d_model: usize) -> (r: Vec<Sample>)
    ensures
        sample_models(r@) == value_samples(node.model(), d_model as int),
{
    match node {
        JsonNode::List(items) => {
            proof {
                lemma_list_model(*items);
            }
            extract_samples(items, d_model)
        },
        _ => {
            let ghost m = node.model();
            let mut r: Vec<Sample> = Vec::new();
            proof {
                assert(seq![m].drop_last() =~= Seq::empty());
                assert(samples_of(seq![m].drop_last(), d_model as int) =~= Seq::empty());
            }
            if let Some(s) = extract_sample(node, d_model) {
                r.push(s);
                assert(sample_models(r@) =~= samples_of(seq![m], d_model as int));
            } else {
                assert(sample_models(r@) =~= samples_of(seq![m], d_model as int));
            }
            r
        },
    }
}

// ---------------------------------------------------------------------------
// Splitting a file
// ---------------------------------------------------------------------------

/// The items of a JSON value, each as it is written: those of a list, or the one value that
/// it is.
pub open spec fn items_of(value: JsonModel) -> Seq<Seq<char>> {
    match value {
        JsonModel::List(items) => items.map_values(|m: JsonModel| json_text_of(m)),
        m => seq![json_text_of(m)],
    }
}

/// The items of a JSON value, each as it is written.
pub fn written_items(node: &JsonNode) -> (r: Vec<String>)
    ensures
        texts(r@) == items_of(node.model()),
{
    let mut r: Vec<String> = Vec::new();
    match node {
        JsonNode::List(items) => {
            proof {
                lemma_list_model(*items);
            }
            let ghost whole = items_of(node.model());
            let mut i: usize = 0;
            assert(texts(r@) =~= whole.take(0));
            while i < items.len()
                invariant
                    i <= items.len(),
                    whole == node_models(items@).map_values(|m: JsonModel| json_text_of(m)),
                    texts(r@) == whole.take(i as int),
                decreases items.len() - i,
            {
                let text: String = write_json(&items[i]);
                let ghost front = texts(r@);
                assert(text@ == whole[i as int]);
                r.push(text);
                i += 1;
                assert(texts(r@) =~= front.push(text@));
                assert(texts(r@) =~= whole.take(i as int));
            }
            assert(whole.take(i as int) =~= whole);
        },
        _ => {
            let text: String = write_json(node);
            r.push(text);
            assert(texts(r@) =~= seq![text@]);
        },
    }
    r
}

/// The items of a text. `None` where it is no JSON.
pub open spec fn json_items_of(text: Seq<char>) -> Option<Seq<Seq<char>>> {
    match json_of(text) {
        Some(value) => Some(items_of(value)),
        None => None,
    }
}

/// The items of a text. `None` where it is no JSON.
pub fn json_items(text: &str) -> (r: Option<Vec<String>>)
    ensures
        match (r, json_items_of(text@)) {
            (Some(items), Some(model)) => texts(items@) == model,
            (None, None) => true,
            _ => false,
        },
{
    match parse_json(text) {
        Some(node) => Some(written_items(&node)),
        None => None,
    }
}

/// The items on a list of lines.
pub open spec fn line_items(lines: Seq<Seq<char>>) -> Seq<Seq<char>>
    decreases lines.len(),
{
    if lines.len() == 0 {
        Seq::empty()
    } else {
        let front = line_items(lines.drop_last());
        let bare = trimmed(lines.last());
        if bare.len() == 0 {
            front
        } else {
            match json_items_of(bare) {
                Some(items) => front + items,
                None => front,
            }
        }
    }
}

/// The items of a file: those of its one value, or where that gives none, those on its lines,
/// up to the first that is no text.
pub open spec fn file_items(data: Seq<u8>) -> Seq<Seq<char>> {
    let whole = match decoded(data) {
        Some(text) => match json_items_of(text) {
            Some(items) => items,
            None => Seq::empty(),
        },
        None => Seq::empty(),
    };
    if whole.len() > 0 {
        whole
    } else {
        line_items(text_lines(data))
    }
}

/// The items of a file, each as one line of JSON. There may be none.
pub fn collect_items(data: &[u8]) -> (r: Vec<String>)
    ensures
        texts(r@) == file_items(data@),
{
    if let Some(text) = decode_text(data) {
        if let Some(items) = json_items(text.as_str()) {
            if items.len() > 0 {
                return items;
            }
        }
    }
    let (lines, _): (Vec<String>, bool) = read_lines(data);
    let ghost all = texts(lines@);
    let mut r: Vec<String> = Vec::new();
    let mut i: usize = 0;
    assert(all.take(0) =~= Seq::empty());
    assert(texts(r@) =~= Seq::empty());
    while i < lines.len()
        invariant
            i <= lines.len(),
            all == texts(lines@),
            texts(r@) == line_items(all.take(i as int)),
        decreases lines.len() - i,
    {
        assert(all.take(i + 1).drop_last() =~= all.take(i as int));
        assert(all.take(i + 1).last() == lines@[i as int]@);
        let bare: String = trim(lines[i].as_str());
        if !bare.as_str().is_empty() {
            if let Some(items) = json_items(bare.as_str()) {
                add_items(&mut r, &items);
            }
        }
        i += 1;
    }
    assert(all.take(i as int) =~= all);
    r
}

/// The lines of a stretch of items.
pub open spec fn part_text(items: Seq<Seq<char>>, start: int, end: int) -> Seq<char>
    decreases end - start,
{
    if end <= start {
        Seq::empty()
    } else {
        part_text(items, start, end - 1) + items[end - 1] + "\n"@
    }
}

/// Why a file cannot be split.
#[derive(Clone, Copy, Debug, PartialEq, Eq, Structural)]
pub enum SplitError {
    /// It contains no valid JSON item.
    NoItems,
}

fn write_lines(items: &Vec<String>, start: usize, end: usize) -> (r: String)
    requires
        start <= end <= items@.len(),
    ensures
        r@ == part_text(texts(items@), start as int, end as int),
{
    let mut r: String = String::new();
    let mut i: usize = start;
    assert(r@ =~= part_text(texts(items@), start as int, start as int));
    while i < end
        invariant
            start <= i <= end <= items@.len(),
            r@ == part_text(texts(items@), start as int, i as int),
        decreases end - i,
    {
        r.append(items[i].as_str());
        r.append("\n");
        i += 1;
    }
    r
}

/// Cuts the items of a file into parts of `chunk_size`, one item on a line.
pub fn split_items(items: &Vec<String>, chunk_size: usize) -> (r: Result<Vec<String>, SplitError>)
    requires
        chunk_size > 0,
    ensures
        r is Err <==> items@.len() == 0,
        r matches Err(e) ==> e == SplitError::NoItems,
        r matches Ok(parts) ==> {
            let bounds = chunk_bounds(items@.len() as int, chunk_size as int);
            &&& parts@.len() == bounds.len()
            &&& forall|i: int|
                0 <= i < bounds.len() ==> (#[trigger] parts@[i])@ == part_text(
                    texts(items@),
                    bounds[i].0 as int,
                    bounds[i].1 as int,
                )
        },
{
    if items.len() == 0 {
        return Err(SplitError::NoItems);
    }
    let bounds: Vec<(usize, usize)> = chunk_ranges(items.len(), chunk_size);
    let mut parts: Vec<String> = Vec::with_capacity(bounds.len());
    let mut i: usize = 0;
    while i < bounds.len()
        invariant
            i <= bounds.len(),
            0 < items@.len() <= usize::MAX,
            chunk_size > 0,
            bounds@ == chunk_bounds(items@.len() as int, chunk_size as int),
            parts@.len() == i,
            forall|k: int|
                0 <= k < i ==> (#[trigger] parts@[k])@ == part_text(
                    texts(items@),
                    bounds@[k].0 as int,
                    bounds@[k].1 as int,
                ),
        decreases bounds.len() - i,
    {
        proof {
            crate::dataset::law_chunks_cover(items@.len() as int, chunk_size as int, i as int);
        }
        let (start, end): (usize, usize) = bounds[i];
        parts.push(write_lines(items, start, end));
        i += 1;
    }
    Ok(parts)
}

/// Blank lines change nothing.
pub proof fn law_blank_lines_are_passed_over(
    lines: Seq<Seq<char>>,
    blank: Seq<char>,
    trim_first: bool,
    d_model: int,
)
    requires
        trimmed(blank).len() == 0,
    ensures
        line_samples(lines.push(blank), trim_first, d_model) == line_samples(
            lines,
            trim_first,
            d_model,
        ),
        line_items(lines.push(blank)) == line_items(lines),
{
    assert(lines.push(blank).drop_last() =~= lines);
}

/// Under a key stands what the first entry with that key holds, and nothing where there is no
/// such entry. What is no record has no entries.
pub proof fn law_first_entry_counts(fields: Seq<(Seq<char>, JsonModel)>, key: Seq<char>, m: JsonModel)
    ensures
        field(JsonModel::Record(fields), key) is None <==> forall|i: int|
            0 <= i < fields.len() ==> (#[trigger] fields[i]).0 != key,
        field(JsonModel::Record(fields), key) matches Some(v) ==> exists|i: int|
            #![trigger fields[i]]
            0 <= i < fields.len() && fields[i].0 == key && fields[i].1 == v && (forall|j: int|
                0 <= j < i ==> (#[trigger] fields[j]).0 != key),
        !(m is Record) ==> field(m, key) is None,
    decreases fields.len(),
{
    if fields.len() > 0 {
        let rest = fields.skip(1);
        law_first_entry_counts(rest, key, m);
        assert(forall|i: int| 0 <= i < rest.len() ==> #[trigger] rest[i] == fields[i + 1]);
        if fields[0].0 != key {
            assert(field(JsonModel::Record(fields), key) == field(JsonModel::Record(rest), key));
            if field(JsonModel::Record(rest), key) is None {
                assert forall|i: int| 0 <= i < fields.len() implies (#[trigger] fields[i]).0 != key by {
                    if i > 0 {
                        assert(rest[i - 1] == fields[i]);
                    }
                }
            } else {
                let v = field(JsonModel::Record(rest), key)->0;
                let k = choose|i: int|
                    #![trigger rest[i]]
                    0 <= i < rest.len() && rest[i].0 == key && rest[i].1 == v && (forall|j: int|
                        0 <= j < i ==> (#[trigger] rest[j]).0 != key);
                assert(fields[k + 1].0 == key && fields[k + 1].1 == v);
                assert forall|j: int| 0 <= j < k + 1 implies (#[trigger] fields[j]).0 != key by {
                    if j > 0 {
                        assert(rest[j - 1] == fields[j]);
                    }
                }
            }
        }
    }
}

/// Text makes a text sample: what stands under `input_text`, or where there is no such entry
/// under `text`, or where there is neither under `content`. Embeddings and tokens beside it
/// change nothing.
pub proof fn law_text_comes_first(m: JsonModel, d_model: int, s: Seq<char>)
    requires
        ({
            ||| field(m, "input_text"@) == Some(JsonModel::Text(s))
            ||| field(m, "input_text"@) is None && field(m, "text"@) == Some(JsonModel::Text(s))
            ||| field(m, "input_text"@) is None && field(m, "text"@) is None && field(m, "content"@)
                == Some(JsonModel::Text(s))
        }),
    ensures
        sample_of(m, d_model) == Some(SampleModel::Text(s)),
{
}

/// How items are read as rows: each list is one row more, with its numbers behind those of the
/// rows in front; everything else is passed over.
pub proof fn law_lists_are_rows(items: Seq<JsonModel>, row: Seq<JsonModel>, other: JsonModel, c: int)
    requires
        !(other is List),
        0 <= c < row.len(),
    ensures
        row_count(Seq::empty()) == 0,
        row_values(Seq::empty()).len() == 0,
        row_count(items.push(JsonModel::List(row))) == row_count(items) + 1,
        row_values(items.push(JsonModel::List(row))).len() == row_values(items).len() + row.len(),
        row_values(items.push(JsonModel::List(row))).take(row_values(items).len() as int)
            == row_values(items),
        row[c] matches JsonModel::Number { double: Some(bits), .. } ==> row_values(
            items.push(JsonModel::List(row)),
        )[row_values(items).len() + c] == bits,
        !(row[c] is Number) ==> row_values(items.push(JsonModel::List(row)))[row_values(items).len()
            + c] == 0,
        row_count(items.push(other)) == row_count(items),
        row_values(items.push(other)) == row_values(items),
{
    assert(items.push(JsonModel::List(row)).drop_last() =~= items);
    assert(items.push(other).drop_last() =~= items);
    assert(row_values(items.push(JsonModel::List(row))).take(row_values(items).len() as int)
        =~= row_values(items));
}

/// How items are read as tokens: each whole number is one token more, its low 32 bits;
/// everything else is passed over.
pub proof fn law_whole_numbers_are_tokens(
    items: Seq<JsonModel>,
    id: i64,
    double: Option<u64>,
    text: Seq<char>,
    other: JsonModel,
)
    requires
        !(other matches JsonModel::Number { integer: Some(_), .. }),
    ensures
        ({
            let number = JsonModel::Number { integer: Some(id), double, text };
            let more = ids_of(items.push(number));
            &&& ids_of(Seq::empty()).len() == 0
            &&& more.len() == ids_of(items).len() + 1
            &&& more.take(ids_of(items).len() as int) == ids_of(items)
            &&& (id - more.last()) % 0x1_0000_0000 == 0
            &&& ids_of(items.push(other)) == ids_of(items)
        }),
{
    let number = JsonModel::Number { integer: Some(id), double, text };
    assert(items.push(number).drop_last() =~= items);
    assert(items.push(other).drop_last() =~= items);
    assert(ids_of(items.push(number)).take(ids_of(items).len() as int) =~= ids_of(items));
    let low = id as int % 0x1_0000_0000;
    assert(id - low == 0x1_0000_0000 * (id as int / 0x1_0000_0000));
}

proof fn lemma_even_rows(items: Seq<JsonModel>, d_model: int)
    requires
        0 <= d_model,
        forall|r: int|
            0 <= r < items.len() ==> (#[trigger] items[r] matches JsonModel::List(row) && row.len()
                == d_model),
    ensures
        row_count(items) == items.len(),
        row_values(items).len() == items.len() * d_model,
        forall|r: int, c: int|
            0 <= r < items.len() && 0 <= c < d_model ==> row_values(items)[r * d_model + c]
                == double_of(#[trigger] items[r]->List_0[c]),
    decreases items.len(),
{
    let n = items.len() as int;
    if n > 0 {
        let front = items.drop_last();
        assert forall|r: int| 0 <= r < front.len() implies (#[trigger] front[r] matches JsonModel::List(
            row,
        ) && row.len() == d_model) by {
            assert(front[r] == items[r]);
        }
        lemma_even_rows(front, d_model);
        assert(items[n - 1] is List);
        assert((n - 1) * d_model + d_model == n * d_model) by (nonlinear_arith);
        assert forall|r: int, c: int| 0 <= r < items.len() && 0 <= c < d_model implies row_values(
            items,
        )[r * d_model + c] == double_of(#[trigger] items[r]->List_0[c]) by {
            if r < n - 1 {
                assert(front[r] == items[r]);
                assert(front[r]->List_0[c] == items[r]->List_0[c]);
                assert(0 <= r * d_model && r * d_model + c < (n - 1) * d_model) by (nonlinear_arith)
                    requires
                        0 <= r < n - 1,
                        0 <= c < d_model,
                ;
            }
        }
    } else {
        assert(0 * d_model == 0);
    }
}

/// Rows of `d_model` values each make a sample with one row for each, value by value, under
/// `embedding` as under `embeddings`, where there is no text.
pub proof fn law_rows_make_a_sample(m: JsonModel, items: Seq<JsonModel>, d_model: int, r: int, c: int)
    requires
        0 < d_model,
        0 <= r < items.len(),
        0 <= c < d_model,
        forall|k: int|
            0 <= k < items.len() ==> (#[trigger] items[k] matches JsonModel::List(row) && row.len()
                == d_model),
        field(m, "input_text"@) is None,
        field(m, "text"@) is None,
        field(m, "content"@) is None,
        ({
            ||| field(m, "embedding"@) == Some(JsonModel::List(items))
            ||| field(m, "embedding"@) is None && field(m, "embeddings"@) == Some(
                JsonModel::List(items),
            )
        }),
    ensures
        sample_of(m, d_model) matches Some(SampleModel::Rows { seq_len, values }) && seq_len
            == items.len() && values.len() == items.len() * d_model && (items[r]->List_0[c] matches JsonModel::Number {
            double: Some(bits),
            ..
        } ==> values[r * d_model + c] == bits),
{
    assert(items[0] is List);
    lemma_even_rows(items, d_model);
    assert(row_values(items)[r * d_model + c] == double_of(items[r]->List_0[c]));
}

/// A flat list under `embedding` makes rows of `d_model` values, where it holds a whole number
/// of rows, and its values stay in their order.
pub proof fn law_flat_lists_are_cut_into_rows(m: JsonModel, items: Seq<JsonModel>, d_model: int, c: int)
    requires
        0 < d_model,
        0 <= c < items.len(),
        !(items[0] is List),
        field(m, "input_text"@) is None,
        field(m, "text"@) is None,
        field(m, "content"@) is None,
        field(m, "embedding"@) == Some(JsonModel::List(items)),
    ensures
        items.len() as int % d_model == 0 ==> (sample_of(m, d_model) matches Some(
            SampleModel::Rows { seq_len, values },
        ) && seq_len * d_model == items.len() && values.len() == items.len() && (items[c] matches JsonModel::Number {
            double: Some(bits),
            ..
        } ==> values[c] == bits)),
        items.len() as int % d_model != 0 && field(m, "embeddings"@) is None && field(m, "tokens"@)
            is None ==> sample_of(m, d_model) is None,
{
    vstd::arithmetic::div_mod::lemma_fundamental_div_mod(items.len() as int, d_model);
    assert(d_model * (items.len() as int / d_model) == (items.len() as int / d_model) * d_model)
        by (nonlinear_arith);
}

/// A list that begins with a whole number is read as tokens, under `embeddings`, or under
/// `tokens` where there is no such entry. An entry `embeddings` hides `tokens` even where it is
/// no list.
pub proof fn law_tokens_come_last(m: JsonModel, items: Seq<JsonModel>, d_model: int)
    requires
        field(m, "input_text"@) is None,
        field(m, "text"@) is None,
        field(m, "content"@) is None,
        field(m, "embedding"@) is None,
    ensures
        items.len() > 0 && (items[0] matches JsonModel::Number { integer: Some(_), .. }) && ({
            ||| field(m, "embeddings"@) == Some(JsonModel::List(items))
            ||| field(m, "embeddings"@) is None && field(m, "tokens"@) == Some(
                JsonModel::List(items),
            )
        }) ==> sample_of(m, d_model) == Some(SampleModel::Ids(ids_of(items))),
        field(m, "embeddings"@) matches Some(other) && !(other is List) ==> sample_of(m, d_model)
            is None,
        field(m, "embeddings"@) is None && field(m, "tokens"@) is None ==> sample_of(m, d_model)
            is None,
{
    if items.len() > 0 && (items[0] matches JsonModel::Number { integer: Some(_), .. }) {
        lemma_first_id(items);
    }
}

proof fn lemma_first_id(items: Seq<JsonModel>)
    requires
        items.len() > 0,
        items[0] matches JsonModel::Number { integer: Some(_), .. },
    ensures
        ids_of(items).len() > 0,
    decreases items.len(),
{
    if items.len() > 1 {
        lemma_first_id(items.drop_last());
    }
}

/// Samples stand in the order of the values, lines and items that they come from: those of a
/// whole are those of its front and behind them those of its rest.
pub proof fn law_samples_keep_their_order(
    a: Seq<JsonModel>,
    b: Seq<JsonModel>,
    lines: Seq<Seq<char>>,
    more: Seq<Seq<char>>,
    trim_first: bool,
    d_model: int,
)
    ensures
        samples_of(a + b, d_model) == samples_of(a, d_model) + samples_of(b, d_model),
        line_samples(lines + more, trim_first, d_model) == line_samples(lines, trim_first, d_model)
            + line_samples(more, trim_first, d_model),
        line_items(lines + more) == line_items(lines) + line_items(more),
    decreases b.len() + more.len(),
{
    if b.len() > 0 {
        law_samples_keep_their_order(a, b.drop_last(), lines, more, trim_first, d_model);
        assert((a + b).drop_last() =~= a + b.drop_last());
        assert(samples_of(a + b, d_model) =~= samples_of(a, d_model) + samples_of(b, d_model));
    } else {
        assert(a + b =~= a);
        assert(samples_of(a + b, d_model) =~= samples_of(a, d_model) + samples_of(b, d_model));
        if more.len() > 0 {
            law_samples_keep_their_order(a, b, lines, more.drop_last(), trim_first, d_model);
            assert((lines + more).drop_last() =~= lines + more.drop_last());
            assert(line_samples(lines + more, trim_first, d_model) =~= line_samples(
                lines,
                trim_first,
                d_model,
            ) + line_samples(more, trim_first, d_model));
            assert(line_items(lines + more) =~= line_items(lines) + line_items(more));
        } else {
            assert(lines + more =~= lines);
            assert(line_samples(lines + more, trim_first, d_model) =~= line_samples(
                lines,
                trim_first,
                d_model,
            ) + line_samples(more, trim_first, d_model));
            assert(line_items(lines + more) =~= line_items(lines) + line_items(more));
        }
    }
}

/// A value alone gives the sample that it makes, as a list of it alone does. A file that is one
/// JSON value is read as that value, and only one that is none is read line by line.
pub proof fn law_a_file_is_one_value_or_lines(
    data: Seq<u8>,
    content: Seq<char>,
    m: JsonModel,
    d_model: int,
)
    requires
        !(m is List),
    ensures
        value_samples(JsonModel::List(seq![m]), d_model) == value_samples(m, d_model),
        sample_of(m, d_model) matches Some(s) ==> value_samples(m, d_model) == seq![s],
        sample_of(m, d_model) is None ==> value_samples(m, d_model).len() == 0,
        json_of(content) == Some(m) ==> file_samples(data, content, d_model) == value_samples(
            JsonModel::List(seq![m]),
            d_model,
        ),
        json_of(content) is None ==> file_samples(data, content, d_model) == line_samples(
            text_lines(data),
            true,
            d_model,
        ),
{
    assert(seq![m].drop_last() =~= Seq::empty());
    assert(samples_of(seq![m].drop_last(), d_model) =~= Seq::empty());
    if let Some(s) = sample_of(m, d_model) {
        assert(samples_of(seq![m], d_model) =~= seq![s]);
    }
}

/// One line gives the sample of the JSON on it: of the line as it stands, or of what is left of
/// it when it is trimmed. It gives one item for each that the JSON on the trimmed line holds.
pub proof fn law_one_line(line: Seq<char>, d_model: int)
    requires
        trimmed(line).len() > 0,
    ensures
        line_samples(seq![line], false, d_model) == (match json_of(line) {
            Some(m) => samples_of(seq![m], d_model),
            None => Seq::empty(),
        }),
        line_samples(seq![line], true, d_model) == (match json_of(trimmed(line)) {
            Some(m) => samples_of(seq![m], d_model),
            None => Seq::empty(),
        }),
        line_items(seq![line]) == (match json_of(trimmed(line)) {
            Some(JsonModel::List(items)) => Seq::new(items.len(), |i: int| json_text_of(items[i])),
            Some(m) => seq![json_text_of(m)],
            None => Seq::empty(),
        }),
{
    assert(seq![line].drop_last() =~= Seq::empty());
    assert(line_items(seq![line].drop_last()) =~= Seq::empty());
    assert(line_items(seq![line]) =~= (match json_of(trimmed(line)) {
        Some(JsonModel::List(items)) => Seq::new(items.len(), |i: int| json_text_of(items[i])),
        Some(m) => seq![json_text_of(m)],
        None => Seq::empty(),
    }));
    assert forall|m: JsonModel| samples_of(#[trigger] seq![m], d_model) == (match sample_of(m, d_model) {
        Some(s) => seq![s],
        None => Seq::empty(),
    }) by {
        assert(seq![m].drop_last() =~= Seq::empty());
        assert(samples_of(seq![m].drop_last(), d_model) =~= Seq::empty());
        if let Some(s) = sample_of(m, d_model) {
            assert(samples_of(seq![m], d_model) =~= seq![s]);
        }
    }
    assert(line_samples(seq![line].drop_last(), false, d_model) =~= Seq::empty());
    assert(line_samples(seq![line].drop_last(), true, d_model) =~= Seq::empty());
    if let Some(m) = json_of(line) {
        assert(line_samples(seq![line], false, d_model) =~= samples_of(seq![m], d_model));
    }
    if let Some(m) = json_of(trimmed(line)) {
        assert(line_samples(seq![line], true, d_model) =~= samples_of(seq![m], d_model));
    }
}

/// The items of a file that is one JSON list are its items, those of another value that value.
/// Where that gives none, they are the items on the lines.
pub proof fn law_items_of_a_file(data: Seq<u8>, text: Seq<char>, items: Seq<JsonModel>, m: JsonModel)
    requires
        decoded(data) == Some(text),
        !(m is List),
    ensures
        json_of(text) == Some(JsonModel::List(items)) && items.len() > 0 ==> file_items(data)
            == Seq::new(items.len(), |i: int| json_text_of(items[i])),
        json_of(text) == Some(m) ==> file_items(data) == seq![json_text_of(m)],
        json_of(text) is None ==> file_items(data) == line_items(text_lines(data)),
        json_of(text) == Some(JsonModel::List(Seq::empty())) ==> file_items(data) == line_items(
            text_lines(data),
        ),
{
    if json_of(text) == Some(JsonModel::List(items)) && items.len() > 0 {
        assert(file_items(data) =~= Seq::new(items.len(), |i: int| json_text_of(items[i])));
    }
}

/// A part of a split file holds one line for each of its items, and parts that follow each
/// other make up the lines of both.
pub proof fn law_parts_hold_a_line_each(items: Seq<Seq<char>>, a: int, b: int, c: int)
    requires
        0 <= a <= b <= c <= items.len(),
    ensures
        part_text(items, a, b) == crate::text::joined(
            Seq::new((b - a) as nat, |i: int| items[a + i] + "\n"@),
        ),
        part_text(items, a, b) + part_text(items, b, c) == part_text(items, a, c),
    decreases c - a,
{
    let lines = Seq::new((b - a) as nat, |i: int| items[a + i] + "\n"@);
    if b > a {
        law_parts_hold_a_line_each(items, a, b - 1, b - 1);
        assert(lines.drop_last() =~= Seq::new((b - 1 - a) as nat, |i: int| items[a + i] + "\n"@));
        assert(lines.last() == items[b - 1] + "\n"@);
        assert(part_text(items, a, b) =~= crate::text::joined(lines));
    } else {
        assert(lines =~= Seq::empty());
        assert(part_text(items, a, b) =~= crate::text::joined(lines));
    }
    if c > b {
        law_parts_hold_a_line_each(items, a, b, c - 1);
        assert(part_text(items, a, b) + part_text(items, b, c) =~= part_text(items, a, c));
    } else {
        assert(part_text(items, a, b) + part_text(items, b, c) =~= part_text(items, a, c));
    }
}


} // verus!
