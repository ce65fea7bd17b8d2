//! What the log viewer's web front end is served: a description of the
//! configuration, and each entry as a JSON payload with an id counting up
//! from 0 in the order entries arrive, kept for clients that join late.
//!
//! Sending payloads to connected clients is the business of whoever holds
//! the state.

use vstd::prelude::*;

use crate::logview::{field_views, Entry, FieldDef, FieldValue, FieldsView};

verus! {

#[verifier::external_type_specification]
#[verifier::external_body]
pub struct ExJsonValue(serde_json::Value);

/// The configured fields as their names and the keys they read.
pub open spec fn field_defs_view(fs: Seq<FieldDef>) -> Seq<(Seq<char>, Seq<Seq<char>>)> {
    fs.map_values(|f: FieldDef| (f.name@, f.from@.map_values(|k: String| k@)))
}

/// The JSON text `serde_json` writes for
/// `{"sourceLabel": label, "config": {"fields": [{"name", "from"}...],
/// "defaultField": default}}`, keys in that order.
pub uninterp spec fn meta_payload_of(
    fields: Seq<(Seq<char>, Seq<Seq<char>>)>,
    default_field: Seq<char>,
    source_label: Seq<char>,
) -> Seq<char>;

/// The JSON text `serde_json` writes for
/// `{"id": id, "raw": raw, "data": {fields...}, "wrapped": wrapped}`, keys
/// in that order, numbers and nested values read back from their JSON.
pub uninterp spec fn entry_payload_of(
    raw: Seq<char>,
    data: FieldsView,
    wrapped: bool,
    id: u64,
) -> Seq<char>;

/// A field's value as a `serde_json::Value`, variant for variant (numbers
/// and nested values read back with `serde_json::from_str`); it states
/// nothing and is called only by `write_entry_payload`.
#[verifier::external_body]
fn field_json(v: &FieldValue) -> serde_json::Value {
    match v {
        FieldValue::Null => serde_json::Value::Null,
        FieldValue::Bool(b) => serde_json::Value::Bool(*b),
        FieldValue::Number(n) => serde_json::from_str(n).unwrap_or(serde_json::Value::Null),
        FieldValue::Text(t) => serde_json::Value::String(t.clone()),
        FieldValue::Nested(j) => serde_json::from_str(j).unwrap_or(serde_json::Value::Null),
    }
}

/// A configured field as the JSON object `{"name", "from"}`; it states
/// nothing and is called only by `write_meta`.
#[verifier::external_body]
fn field_def_json(f: &FieldDef) -> serde_json::Value {
    let mut m = serde_json::Map::new();
    m.insert("name".to_string(), serde_json::Value::from(f.name.clone()));
    m.insert("from".to_string(), serde_json::Value::from(f.from.clone()));
    serde_json::Value::Object(m)
}

/// Builds the description with `serde_json::Map` and writes it with
/// `Value::to_string`. The claim: the text is the one named
/// `meta_payload_of` of the fields, the default field and the label.
#[verifier::external_body]
fn write_meta(fields: &Vec<FieldDef>, default_field: &str, source_label: &str) -> (r: String)
    ensures
        r@ == meta_payload_of(field_defs_view(fields@), default_field@, source_label@),
{
    let defs: Vec<serde_json::Value> = fields.iter().map(field_def_json).collect();
    let mut config = serde_json::Map::new();
    config.insert("fields".to_string(), serde_json::Value::Array(defs));
    config.insert("defaultField".to_string(), serde_json::Value::from(default_field));
    let mut meta = serde_json::Map::new();
    meta.insert("sourceLabel".to_string(), serde_json::Value::from(source_label));
    meta.insert("config".to_string(), serde_json::Value::Object(config));
    serde_json::Value::Object(meta).to_string()
}

/// Builds an entry's payload with `serde_json::Map` and writes it with
/// `Value::to_string`. The claim: the text is the one named
/// `entry_payload_of` of the entry's raw line, fields and wrapping, and the id.
#[verifier::external_body]
fn write_entry_payload(entry: &Entry, id: u64) -> (r: String)
    ensures
        r@ == entry_payload_of(entry.raw@, field_views(entry.fields@), entry.wrapped, id),
{
    let data: serde_json::Map<String, serde_json::Value> =
        entry.fields.iter().map(|(k, v)| (k.clone(), field_json(v))).collect();
    let mut m = serde_json::Map::new();
    m.insert("id".to_string(), serde_json::Value::from(id));
    m.insert("raw".to_string(), serde_json::Value::from(entry.raw.clone()));
    m.insert("data".to_string(), serde_json::Value::Object(data));
    m.insert("wrapped".to_string(), serde_json::Value::Bool(entry.wrapped));
    serde_json::Value::Object(m).to_string()
}

/// The description of the viewer the front end reads first: the source's
/// label and the configured fields.
pub fn meta_payload(fields: &Vec<FieldDef>, default_field: &str, source_label: &str) -> (r: String)
    ensures
        r@ == meta_payload_of(field_defs_view(fields@), default_field@, source_label@),
{
    write_meta(fields, default_field, source_label)
}

/// An entry as the front end receives it, under the id given.
pub fn entry_payload(entry: &Entry, id: u64) -> (r: String)
    ensures
        r@ == entry_payload_of(entry.raw@, field_views(entry.fields@), entry.wrapped, id),
{
    write_entry_payload(entry, id)
}

/// What the server keeps: the description, every payload so far in the
/// order pushed, the next id, and whether the source has ended.
pub struct ServerState {
    pub meta_json: String,
    pub replay: Vec<String>,
    pub next_id: u64,
    pub ended: bool,
}

impl ServerState {
    /// Ids are handed out in push order from 0: there is one payload per
    /// id given so far.
    pub open spec fn well_formed(&self) -> bool {
        self.replay@.len() == self.next_id
    }

    /// A server with nothing pushed yet.
    pub fn new(fields: &Vec<FieldDef>, default_field: &str, source_label: String) -> (r: ServerState)
        ensures
            r.well_formed(),
            r.meta_json@ == meta_payload_of(
                field_defs_view(fields@),
                default_field@,
                source_label@,
            ),
            r.replay@.len() == 0,
            r.next_id == 0,
            !r.ended,
    {
        ServerState {
            meta_json: meta_payload(fields, default_field, source_label.as_str()),
            replay: Vec::new(),
            next_id: 0,
            ended: false,
        }
    }

    /// Gives the entry the next id, keeps its payload for replay, and
    /// returns it for the clients already connected.
    pub fn push_entry(&mut self, entry: &Entry) -> (r: String)
        requires
            old(self).next_id < u64::MAX,
        ensures
            r@ == entry_payload_of(
                entry.raw@,
                field_views(entry.fields@),
                entry.wrapped,
                old(self).next_id,
            ),
            final(self).replay@.len() == old(self).replay@.len() + 1,
            forall|i: int|
                0 <= i < old(self).replay@.len() ==> #[trigger] final(self).replay@[i]
                    == old(self).replay@[i],
            final(self).replay@.last()@ == r@,
            final(self).next_id == old(self).next_id + 1,
            final(self).meta_json == old(self).meta_json,
            final(self).ended == old(self).ended,
            old(self).well_formed() ==> final(self).well_formed(),
    {
        let id = self.next_id;
        self.next_id = id + 1;
        let payload = entry_payload(entry, id);
        self.replay.push(payload.clone());
        payload
    }
}

/// Whatever was pushed, the payload at each place of the replay carries
/// the id of that place: ids count up from 0 in push order.
pub proof fn law_replay_ids_follow_push_order(
    before: ServerState,
    after: ServerState,
    raw: Seq<char>,
    data: FieldsView,
    wrapped: bool,
)
    requires
        before.well_formed(),
        after.replay@.len() == before.replay@.len() + 1,
        after.replay@.last()@ == entry_payload_of(raw, data, wrapped, before.next_id),
    ensures
        after.replay@.last()@ == entry_payload_of(
            raw,
            data,
            wrapped,
            (after.replay@.len() - 1) as u64,
        ),
{
}

} // verus!
