//! Detection of graph-like arrays in a JSON document, and recommendations
//! of which fields hold ids, labels and relations.
use vstd::prelude::*;

use crate::config::GraphConfig;
use crate::engine::storage::json::{split_dot, split_path, string_views};
use crate::text::{seq_contains, text_contains, text_eq};
use crate::value::JsonValue;

verus! {

broadcast use vstd::std_specs::vec::axiom_vec_index_decreases;

/// Errors of schema detection.
#[derive(Debug)]
pub enum SchemaError {
    InvalidJson(String),
    NoArrayFound,
    EmptyJson,
}

pub type SchemaResult<T> = Result<T, SchemaError>;

/// The kind of a JSON value.
#[derive(Debug, Clone, Copy, PartialEq, Eq, Structural)]
pub enum FieldType {
    String,
    Number,
    Boolean,
    Array,
    Object,
    Null,
}

/// What was found about one field of the elements of an array.
#[derive(Debug)]
pub struct NodeFieldInfo {
    pub name: String,
    pub field_type: FieldType,
    /// The name holds `id`, every element has the field, and its string values are all distinct.
    pub is_id_candidate: bool,
    /// The name is `type`, `role` or `kind`, at least half the elements have
    /// it, and its string values repeat.
    pub is_label_candidate: bool,
    /// The field holds arrays of strings or numbers.
    pub is_relation_candidate: bool,
}

/// What was found about one array of the document.
#[derive(Debug)]
pub struct ArraySchema {
    /// Dot-separated path of the array (`users`, `data.users`).
    pub path: String,
    pub element_count: usize,
    /// The fields, most frequent first.
    pub fields: Vec<NodeFieldInfo>,
    pub recommended_id_field: Option<String>,
    pub recommended_label_field: Option<String>,
    pub recommended_relation_fields: Vec<String>,
}

/// All arrays found in a document and the one recommended for a graph.
#[derive(Debug)]
pub struct SchemaDetection {
    pub array_schemas: Vec<ArraySchema>,
    pub primary_recommendation: Option<ArraySchema>,
}

pub open spec fn type_of(v: JsonValue) -> FieldType {
    match v {
        JsonValue::String(_) => FieldType::String,
        JsonValue::Number(_) => FieldType::Number,
        JsonValue::Bool(_) => FieldType::Boolean,
        JsonValue::Array(_) => FieldType::Array,
        JsonValue::Object(_) => FieldType::Object,
        JsonValue::Null => FieldType::Null,
    }
}

/// `path.key`, or `key` at the top.
pub open spec fn join_path(path: Seq<char>, key: Seq<char>) -> Seq<char> {
    if path.len() == 0 {
        key
    } else {
        path + seq!['.'] + key
    }
}

/// The non-empty arrays of a document with their paths, depth first, in entry order.
pub open spec fn arrays_in(v: JsonValue, path: Seq<char>) -> Seq<(Seq<char>, nat)>
    decreases v,
{
    match v {
        JsonValue::Array(a) => if a.len() > 0 {
            seq![(path, a.len() as nat)]
        } else {
            Seq::empty()
        },
        JsonValue::Object(es) => arrays_in_entries(es@, path),
        _ => Seq::empty(),
    }
}

/// The non-empty arrays under the entries of an object.
pub open spec fn arrays_in_entries(es: Seq<(String, JsonValue)>, path: Seq<char>) -> Seq<
    (Seq<char>, nat),
>
    decreases es,
{
    if es.len() == 0 {
        Seq::empty()
    } else {
        arrays_in_entries(es.subrange(0, es.len() - 1), path) + arrays_in(
            es[es.len() - 1].1,
            join_path(path, es[es.len() - 1].0@),
        )
    }
}

fn kind_name(t: FieldType) -> (r: &'static str)
    ensures
        r@ == type_text(t),
{
    match t {
        FieldType::String => "STRING",
        FieldType::Number => "NUMBER",
        FieldType::Boolean => "BOOLEAN",
        FieldType::Array => "ARRAY",
        FieldType::Object => "OBJECT",
        FieldType::Null => "NULL",
    }
}

impl FieldType {
    /// The name of the type in capitals (`STRING`, `NUMBER`, ...).
    pub fn name(&self) -> (r: String)
        ensures
            r@ == type_text(*self),
    {
        kind_name(*self).to_owned()
    }
}

fn classify(v: &JsonValue) -> (r: FieldType)
    ensures
        r == type_of(*v),
{
    match v {
        JsonValue::String(_) => FieldType::String,
        JsonValue::Number(_) => FieldType::Number,
        JsonValue::Bool(_) => FieldType::Boolean,
        JsonValue::Array(_) => FieldType::Array,
        JsonValue::Object(_) => FieldType::Object,
        JsonValue::Null => FieldType::Null,
    }
}

/// Some value has type `t`.
pub open spec fn has_type(vs: Seq<&JsonValue>, t: FieldType) -> bool {
    exists|i: int| 0 <= i < vs.len() && type_of(*#[trigger] vs[i]) == t
}

/// The number of types among the values.
pub open spec fn type_count(vs: Seq<&JsonValue>) -> nat {
    (if has_type(vs, FieldType::String) { 1nat } else { 0nat })
        + (if has_type(vs, FieldType::Number) { 1nat } else { 0nat })
        + (if has_type(vs, FieldType::Boolean) { 1nat } else { 0nat })
        + (if has_type(vs, FieldType::Array) { 1nat } else { 0nat })
        + (if has_type(vs, FieldType::Object) { 1nat } else { 0nat })
        + (if has_type(vs, FieldType::Null) { 1nat } else { 0nat })
}

/// The type of a field: the one type of its values, else STRING where
/// strings occur, else NULL.
pub open spec fn dominant_type(vs: Seq<&JsonValue>) -> FieldType {
    if has_type(vs, FieldType::String) {
        FieldType::String
    } else if type_count(vs) == 1 {
        if has_type(vs, FieldType::Number) {
            FieldType::Number
        } else if has_type(vs, FieldType::Boolean) {
            FieldType::Boolean
        } else if has_type(vs, FieldType::Array) {
            FieldType::Array
        } else if has_type(vs, FieldType::Object) {
            FieldType::Object
        } else {
            FieldType::Null
        }
    } else {
        FieldType::Null
    }
}

/// Some array among the values has an element of type `t`.
pub open spec fn array_has(vs: Seq<&JsonValue>, t: FieldType) -> bool {
    exists|i: int, j: int| 0 <= i < vs.len() && #[trigger] elem_type_at(*vs[i], j, t)
}

/// One of the first `j` elements of the array `v` has type `t`.
pub open spec fn elem_in_prefix(v: JsonValue, j: int, t: FieldType) -> bool {
    exists|q: int| 0 <= q < j && #[trigger] elem_type_at(v, q, t)
}

/// `v` is an array whose element `j` has type `t`.
pub open spec fn elem_type_at(v: JsonValue, j: int, t: FieldType) -> bool {
    v is Array && 0 <= j < v->Array_0@.len() && type_of(v->Array_0@[j]) == t
}

/// `v` is a string with the text `t`.
pub open spec fn is_string_with(v: JsonValue, t: Seq<char>) -> bool {
    v matches JsonValue::String(x) && x@ == t
}

/// One of the first `n` values is a string with the text `t`.
pub open spec fn strings_before(vs: Seq<&JsonValue>, n: int, t: Seq<char>) -> bool {
    exists|j: int| 0 <= j < n && is_string_with(*#[trigger] vs[j], t)
}

/// `vs[i]` is a string whose text no earlier value has.
pub open spec fn first_of_its_string(vs: Seq<&JsonValue>, i: int) -> bool {
    (*vs[i]) matches JsonValue::String(s) && !strings_before(vs, i, s@)
}

/// The number of distinct string values among the first `n` values.
pub open spec fn distinct_strings(vs: Seq<&JsonValue>, n: int) -> nat
    decreases n,
{
    if n <= 0 {
        0
    } else {
        distinct_strings(vs, n - 1) + if first_of_its_string(vs, n - 1) {
            1nat
        } else {
            0nat
        }
    }
}

pub open spec fn is_label_name(name: Seq<char>) -> bool {
    name == seq!['t', 'y', 'p', 'e'] || name == seq!['r', 'o', 'l', 'e'] || name == seq![
        'k',
        'i',
        'n',
        'd',
    ]
}

/// The findings for one field from its values.
pub open spec fn field_info_is(
    info: NodeFieldInfo,
    name: Seq<char>,
    vs: Seq<&JsonValue>,
    occurrences: nat,
    total: nat,
) -> bool {
    let distinct = distinct_strings(vs, vs.len() as int);
    &&& info.name@ == name
    &&& info.field_type == dominant_type(vs)
    &&& info.is_id_candidate == (seq_contains(name, seq!['i', 'd']) && occurrences == total
        && distinct == total)
    &&& info.is_label_candidate == (is_label_name(name) && occurrences >= total / 2 && distinct
        < total)
    &&& info.is_relation_candidate == (dominant_type(vs) == FieldType::Array && (array_has(
        vs,
        FieldType::String,
    ) || array_has(vs, FieldType::Number)))
}

/// Whether one of the first `n` values is a string with the text of `s`.
fn string_among(values: &Vec<&JsonValue>, n: usize, s: &String) -> (r: bool)
    requires
        n <= values@.len(),
    ensures
        r == strings_before(values@, n as int, s@),
{
    let mut j: usize = 0;
    while j < n
        invariant
            n <= values@.len(),
            j <= n,
            forall|q: int| 0 <= q < j ==> !is_string_with(*#[trigger] values@[q], s@),
        decreases n - j,
    {
        if let JsonValue::String(t) = values[j] {
            if text_eq(t.as_str(), s.as_str()) {
                proof {
                    assert(is_string_with(*values@[j as int], s@));
                }
                return true;
            }
        }
        j = j + 1;
    }
    false
}

proof fn lemma_elem_prefix_step(v: JsonValue, j: int, t: FieldType)
    ensures
        elem_in_prefix(v, j + 1, t) == (elem_in_prefix(v, j, t) || elem_type_at(v, j, t)),
{
    if elem_in_prefix(v, j + 1, t) {
        let q = choose|q: int| 0 <= q < j + 1 && #[trigger] elem_type_at(v, q, t);
    }
    if elem_type_at(v, j, t) && j >= 0 {
        assert(0 <= j < j + 1 && elem_type_at(v, j, t));
    }
}

/// Classifies one field from all of its values.
fn analyze_field(
    name: &str,
    values: &Vec<&JsonValue>,
    occurrence_count: usize,
    total_elements: usize,
) -> (r: NodeFieldInfo)
    ensures
        field_info_is(r, name@, values@, occurrence_count as nat, total_elements as nat),
{
    let mut has_string = false;
    let mut has_number = false;
    let mut has_bool = false;
    let mut has_array = false;
    let mut has_object = false;
    let mut has_null = false;
    let mut elem_string = false;
    let mut elem_number = false;
    let mut distinct: usize = 0;
    let ghost vs = values@;
    let mut i: usize = 0;
    while i < values.len()
        invariant
            vs == values@,
            i <= vs.len(),
            has_string == has_type(vs.subrange(0, i as int), FieldType::String),
            has_number == has_type(vs.subrange(0, i as int), FieldType::Number),
            has_bool == has_type(vs.subrange(0, i as int), FieldType::Boolean),
            has_array == has_type(vs.subrange(0, i as int), FieldType::Array),
            has_object == has_type(vs.subrange(0, i as int), FieldType::Object),
            has_null == has_type(vs.subrange(0, i as int), FieldType::Null),
            elem_string == array_has(vs.subrange(0, i as int), FieldType::String),
            elem_number == array_has(vs.subrange(0, i as int), FieldType::Number),
            distinct == distinct_strings(vs, i as int),
            distinct <= i,
        decreases values.len() - i,
    {
        let v = values[i];
        let ghost pre = vs.subrange(0, i as int);
        let ghost post = vs.subrange(0, i + 1);
        proof {
            assert(post == pre.push(vs[i as int]));
            assert forall|t: FieldType| has_type(post, t) == (has_type(pre, t) || type_of(*vs[i as int]) == t) by {
                if has_type(post, t) {
                    let k = choose|k: int| 0 <= k < post.len() && type_of(*#[trigger] post[k]) == t;
                    if k < i {
                        assert(pre[k] == post[k]);
                    }
                }
                if has_type(pre, t) {
                    let k = choose|k: int| 0 <= k < pre.len() && type_of(*#[trigger] pre[k]) == t;
                    assert(post[k] == pre[k]);
                }
                if type_of(*vs[i as int]) == t {
                    assert(post[i as int] == vs[i as int]);
                }
            }
        }
        let t = classify(v);
        match t {
            FieldType::String => {
                has_string = true;
            },
            FieldType::Number => {
                has_number = true;
            },
            FieldType::Boolean => {
                has_bool = true;
            },
            FieldType::Array => {
                has_array = true;
            },
            FieldType::Object => {
                has_object = true;
            },
            FieldType::Null => {
                has_null = true;
            },
        }
        let ghost old_es = elem_string;
        let ghost old_en = elem_number;
        if let JsonValue::Array(items) = v {
            let mut j: usize = 0;
            while j < items.len()
                invariant
                    *v == JsonValue::Array(*items),
                    v == vs[i as int],
                    i < vs.len(),
                    pre == vs.subrange(0, i as int),
                    post == vs.subrange(0, i + 1),
                    j <= items@.len(),
                    elem_string == (old_es || elem_in_prefix(*v, j as int, FieldType::String)),
                    elem_number == (old_en || elem_in_prefix(*v, j as int, FieldType::Number)),
                decreases items.len() - j,
            {
                proof {
                    lemma_elem_prefix_step(*v, j as int, FieldType::String);
                    lemma_elem_prefix_step(*v, j as int, FieldType::Number);
                }
                match &items[j] {
                    JsonValue::String(_) => {
                        elem_string = true;
                    },
                    JsonValue::Number(_) => {
                        elem_number = true;
                    },
                    _ => {},
                }
                j = j + 1;
            }
        }
        proof {
            assert forall|t: FieldType| array_has(post, t) == (array_has(pre, t) || exists|q: int| #[trigger] elem_type_at(*vs[i as int], q, t)) by {
                if array_has(post, t) {
                    let (k, q) = choose|k: int, q: int| 0 <= k < post.len() && #[trigger] elem_type_at(*post[k], q, t);
                    if k < i {
                        assert(pre[k] == post[k]);
                    }
                }
                if array_has(pre, t) {
                    let (k, q) = choose|k: int, q: int| 0 <= k < pre.len() && #[trigger] elem_type_at(*pre[k], q, t);
                    assert(post[k] == pre[k]);
                }
                if exists|q: int| #[trigger] elem_type_at(*vs[i as int], q, t) {
                    let q = choose|q: int| #[trigger] elem_type_at(*vs[i as int], q, t);
                    assert(post[i as int] == vs[i as int]);
                    assert(elem_type_at(*post[i as int], q, t));
                }
            }
        }
        if let JsonValue::String(s) = v {
            if !string_among(values, i, s) {
                distinct = distinct + 1;
            }
        }
        proof {
            assert(distinct_strings(vs, i + 1) == distinct_strings(vs, i as int) + if first_of_its_string(vs, i as int) { 1nat } else { 0nat });
        }
        i = i + 1;
    }
    proof {
        assert(vs.subrange(0, i as int) == vs);
    }
    let count: usize = (has_string as usize) + (has_number as usize) + (has_bool as usize)
        + (has_array as usize) + (has_object as usize) + (has_null as usize);
    let field_type = if has_string {
        FieldType::String
    } else if count == 1 {
        if has_number {
            FieldType::Number
        } else if has_bool {
            FieldType::Boolean
        } else if has_array {
            FieldType::Array
        } else if has_object {
            FieldType::Object
        } else {
            FieldType::Null
        }
    } else {
        FieldType::Null
    };
    proof {
        reveal_strlit("id");
        reveal_strlit("type");
        reveal_strlit("role");
        reveal_strlit("kind");
    }
    let is_id_candidate = text_contains(name, "id") && occurrence_count == total_elements
        && distinct == total_elements;
    let is_label_candidate = (text_eq(name, "type") || text_eq(name, "role") || text_eq(
        name,
        "kind",
    )) && occurrence_count >= total_elements / 2 && distinct < total_elements;
    let is_relation_candidate = field_type == FieldType::Array && (elem_string || elem_number);
    proof {
        assert(field_type == dominant_type(vs));
        assert(distinct == distinct_strings(vs, vs.len() as int));
        assert("id"@ =~= seq!['i', 'd']);
        assert("type"@ =~= seq!['t', 'y', 'p', 'e']);
        assert("role"@ =~= seq!['r', 'o', 'l', 'e']);
        assert("kind"@ =~= seq!['k', 'i', 'n', 'd']);
        assert(is_id_candidate == (seq_contains(name@, seq!['i', 'd']) && occurrence_count == total_elements && distinct == total_elements));
        assert(is_label_candidate == (is_label_name(name@) && occurrence_count >= total_elements / 2 && distinct < total_elements));
        assert(is_relation_candidate == (dominant_type(vs) == FieldType::Array && (array_has(vs, FieldType::String) || array_has(vs, FieldType::Number))));
    }
    NodeFieldInfo {
        name: name.to_owned(),
        field_type,
        is_id_candidate,
        is_label_candidate,
        is_relation_candidate,
    }
}

/// The tests by which fields are recommended: 0, an id candidate; 1, named
/// `id` or `_id`; 2, a label candidate; 3, named like a label.
pub open spec fn field_test(which: u8, f: NodeFieldInfo) -> bool {
    if which == 0 {
        f.is_id_candidate
    } else if which == 1 {
        is_id_name(f.name@)
    } else if which == 2 {
        f.is_label_candidate
    } else {
        is_label_like_name(f.name@)
    }
}

/// The index of the first element of `s` that passes test `p`.
pub open spec fn first_where(s: Seq<NodeFieldInfo>, p: u8) -> Option<int>
    decreases s.len(),
{
    if s.len() == 0 {
        None
    } else {
        match first_where(s.drop_last(), p) {
            Some(i) => Some(i),
            None => if field_test(p, s.last()) {
                Some(s.len() - 1)
            } else {
                None
            },
        }
    }
}

proof fn lemma_first_where_prefix(s: Seq<NodeFieldInfo>, m: int, p: u8)
    requires
        0 <= m <= s.len(),
        first_where(s.subrange(0, m), p) is Some,
    ensures
        first_where(s, p) == first_where(s.subrange(0, m), p),
    decreases s.len(),
{
    if m < s.len() {
        assert(s.drop_last().subrange(0, m) == s.subrange(0, m));
        lemma_first_where_prefix(s.drop_last(), m, p);
    } else {
        assert(s.subrange(0, m) == s);
    }
}

pub open spec fn is_id_name(name: Seq<char>) -> bool {
    name == seq!['i', 'd'] || name == seq!['_', 'i', 'd']
}

pub open spec fn is_label_like_name(name: Seq<char>) -> bool {
    is_label_name(name) || name == seq!['c', 'a', 't', 'e', 'g', 'o', 'r', 'y'] || name == seq![
        'l',
        'a',
        'b',
        'e',
        'l',
    ] || name == seq!['c', 'l', 'a', 's', 's']
}

/// The recommended id field: the first id candidate, else the first field named `id` or `_id`.
pub open spec fn id_recommendation(fields: Seq<NodeFieldInfo>) -> Option<Seq<char>> {
    match first_where(fields, 0) {
        Some(i) => Some(fields[i].name@),
        None => match first_where(fields, 1) {
            Some(i) => Some(fields[i].name@),
            None => None,
        },
    }
}

/// The recommended label field: the first label candidate, else the first
/// field named `type`, `role`, `kind`, `category`, `label` or `class`.
pub open spec fn label_recommendation(fields: Seq<NodeFieldInfo>) -> Option<Seq<char>> {
    match first_where(fields, 2) {
        Some(i) => Some(fields[i].name@),
        None => match first_where(fields, 3) {
            Some(i) => Some(fields[i].name@),
            None => None,
        },
    }
}

/// The names of the relation candidates, in order.
pub open spec fn relation_names(fields: Seq<NodeFieldInfo>) -> Seq<Seq<char>>
    decreases fields.len(),
{
    if fields.len() == 0 {
        Seq::empty()
    } else if fields.last().is_relation_candidate {
        relation_names(fields.drop_last()).push(fields.last().name@)
    } else {
        relation_names(fields.drop_last())
    }
}

pub open spec fn opt_view(o: Option<String>) -> Option<Seq<char>> {
    match o {
        Some(s) => Some(s@),
        None => None,
    }
}

/// The recommendations of an array schema follow from its fields.
pub open spec fn recommendations_follow(a: ArraySchema) -> bool {
    &&& opt_view(a.recommended_id_field) == id_recommendation(a.fields@)
    &&& opt_view(a.recommended_label_field) == label_recommendation(a.fields@)
    &&& string_views(a.recommended_relation_fields@) == relation_names(a.fields@)
}

/// The first field satisfying `p`, as a name.
fn first_field_name(fields: &Vec<NodeFieldInfo>, which: u8) -> (r: Option<String>)
    ensures
        r matches Some(n) ==> first_where(fields@, which) matches Some(i) && n@ == fields@[i].name@,
        r is None ==> first_where(fields@, which) is None,
{
    proof {
        assert(fields@.subrange(0, 0) =~= Seq::<NodeFieldInfo>::empty());
    }
    let mut i: usize = 0;
    while i < fields.len()
        invariant
            i <= fields@.len(),
            first_where(fields@.subrange(0, i as int), which) is None,
        decreases fields.len() - i,
    {
        let f = &fields[i];
        let name = f.name.as_str();
        proof {
            reveal_strlit("id");
            reveal_strlit("_id");
            reveal_strlit("type");
            reveal_strlit("role");
            reveal_strlit("kind");
            reveal_strlit("category");
            reveal_strlit("label");
            reveal_strlit("class");
            assert("id"@ =~= seq!['i', 'd']);
            assert("_id"@ =~= seq!['_', 'i', 'd']);
            assert("type"@ =~= seq!['t', 'y', 'p', 'e']);
            assert("role"@ =~= seq!['r', 'o', 'l', 'e']);
            assert("kind"@ =~= seq!['k', 'i', 'n', 'd']);
            assert("category"@ =~= seq!['c', 'a', 't', 'e', 'g', 'o', 'r', 'y']);
            assert("label"@ =~= seq!['l', 'a', 'b', 'e', 'l']);
            assert("class"@ =~= seq!['c', 'l', 'a', 's', 's']);
        }
        let hit = if which == 0 {
            f.is_id_candidate
        } else if which == 1 {
            text_eq(name, "id") || text_eq(name, "_id")
        } else if which == 2 {
            f.is_label_candidate
        } else {
            text_eq(name, "type") || text_eq(name, "role") || text_eq(name, "kind") || text_eq(
                name,
                "category",
            ) || text_eq(name, "label") || text_eq(name, "class")
        };
        proof {
            assert(fields@.subrange(0, i + 1).drop_last() == fields@.subrange(0, i as int));
            assert(fields@.subrange(0, i + 1).last() == fields@[i as int]);
            assert(hit == field_test(which, fields@[i as int]));
        }
        if hit {
            proof {
                lemma_first_where_prefix(fields@, i + 1, which);
            }
            return Some(f.name.clone());
        }
        i = i + 1;
    }
    proof {
        assert(fields@.subrange(0, i as int) == fields@);
    }
    None
}

impl Clone for NodeFieldInfo {
    fn clone(&self) -> (r: Self)
        ensures
            r == *self,
    {
        NodeFieldInfo {
            name: self.name.clone(),
            field_type: self.field_type,
            is_id_candidate: self.is_id_candidate,
            is_label_candidate: self.is_label_candidate,
            is_relation_candidate: self.is_relation_candidate,
        }
    }
}

fn clone_strings(v: &Vec<String>) -> (r: Vec<String>)
    ensures
        r@ == v@,
{
    let mut out: Vec<String> = Vec::new();
    let mut i: usize = 0;
    while i < v.len()
        invariant
            i <= v@.len(),
            out@ == v@.subrange(0, i as int),
        decreases v.len() - i,
    {
        out.push(v[i].clone());
        i = i + 1;
        proof {
            assert(out@ == v@.subrange(0, i as int));
        }
    }
    proof {
        assert(out@ == v@);
    }
    out
}

fn clone_opt(o: &Option<String>) -> (r: Option<String>)
    ensures
        r == *o,
{
    match o {
        Some(s) => Some(s.clone()),
        None => None,
    }
}

impl Clone for ArraySchema {
    fn clone(&self) -> (r: Self)
        ensures
            r.path == self.path,
            r.element_count == self.element_count,
            r.fields@ == self.fields@,
            r.recommended_id_field == self.recommended_id_field,
            r.recommended_label_field == self.recommended_label_field,
            r.recommended_relation_fields@ == self.recommended_relation_fields@,
    {
        let mut fields: Vec<NodeFieldInfo> = Vec::new();
        let mut i: usize = 0;
        while i < self.fields.len()
            invariant
                i <= self.fields@.len(),
                fields@ == self.fields@.subrange(0, i as int),
            decreases self.fields.len() - i,
        {
            fields.push(self.fields[i].clone());
            i = i + 1;
            proof {
                assert(fields@ == self.fields@.subrange(0, i as int));
            }
        }
        proof {
            assert(fields@ == self.fields@);
        }
        ArraySchema {
            path: self.path.clone(),
            element_count: self.element_count,
            fields,
            recommended_id_field: clone_opt(&self.recommended_id_field),
            recommended_label_field: clone_opt(&self.recommended_label_field),
            recommended_relation_fields: clone_strings(&self.recommended_relation_fields),
        }
    }
}

/// Inserts `x` after the last element whose count is at least `c`, keeping
/// the counts in descending order.
fn insert_by_count(
    sorted: &mut Vec<(usize, NodeFieldInfo)>,
    c: usize,
    x: NodeFieldInfo,
)
    requires
        forall|a: int, b: int| 0 <= a < b < old(sorted)@.len() ==> old(sorted)@[a].0 >= old(sorted)@[b].0,
    ensures
        final(sorted)@.len() == old(sorted)@.len() + 1,
        forall|a: int, b: int| 0 <= a < b < final(sorted)@.len() ==> final(sorted)@[a].0 >= final(sorted)@[b].0,
        exists|pos: int| 0 <= pos <= old(sorted)@.len() && final(sorted)@ == old(sorted)@.insert(pos, (c, x)),
{
    let mut pos: usize = 0;
    while pos < sorted.len() && sorted[pos].0 >= c
        invariant
            pos <= sorted@.len(),
            sorted@ == old(sorted)@,
            forall|a: int| 0 <= a < pos ==> sorted@[a].0 >= c,
        decreases sorted.len() - pos,
    {
        pos = pos + 1;
    }
    let ghost before = sorted@;
    sorted.insert(pos, (c, x));
    proof {
        assert(sorted@ == before.insert(pos as int, (c, x)));
        assert forall|a: int, b: int| 0 <= a < b < sorted@.len() implies sorted@[a].0 >= sorted@[b].0 by {
            if a < pos && b < pos {
            } else if a < pos && b == pos {
            } else if a < pos && b > pos {
                assert(sorted@[b] == before[b - 1]);
                if b - 1 >= pos && pos < before.len() {
                    assert(before[pos as int].0 < c || pos == before.len());
                }
            } else if a == pos {
                assert(sorted@[b] == before[b - 1]);
                if pos < before.len() {
                    assert(!(before[pos as int].0 >= c));
                    assert(before[pos as int].0 >= before[b - 1].0);
                }
            } else {
                assert(sorted@[a] == before[a - 1]);
                assert(sorted@[b] == before[b - 1]);
            }
        }
    }
}

/// The entries of an object, none for other values.
pub open spec fn entries_of(v: JsonValue) -> Seq<(String, JsonValue)> {
    match v {
        JsonValue::Object(es) => es@,
        _ => Seq::empty(),
    }
}

/// The number of entries of `es` under `name`.
pub open spec fn count_key(es: Seq<(String, JsonValue)>, name: Seq<char>) -> nat
    decreases es.len(),
{
    if es.len() == 0 {
        0
    } else {
        count_key(es.drop_last(), name) + if es.last().0@ == name {
            1nat
        } else {
            0nat
        }
    }
}

/// The number of entries under `name` in the first `n` elements of `arr`.
pub open spec fn occurrences(arr: Seq<JsonValue>, name: Seq<char>, n: int) -> nat
    decreases n,
{
    if n <= 0 {
        0
    } else {
        occurrences(arr, name, n - 1) + count_key(entries_of(arr[n - 1]), name)
    }
}

/// The key of entry `k` of element `e`.
pub open spec fn key_at(arr: Seq<JsonValue>, e: int, k: int) -> Seq<char> {
    entries_of(arr[e])[k].0@
}

/// Some string of `names` has the text `x`.
pub open spec fn name_in(names: Seq<String>, x: Seq<char>) -> bool {
    exists|f: int| 0 <= f < names.len() && (#[trigger] names[f])@ == x
}

/// Every key of the first `e` elements, and of the first `k` entries of
/// element `e`, is among `names`.
pub open spec fn keys_covered(names: Seq<String>, arr: Seq<JsonValue>, e: int, k: int) -> bool {
    forall|e2: int, k2: int|
        0 <= e2 && 0 <= k2 && k2 < entries_of(arr[e2]).len() && (e2 < e || (e2 == e && k2 < k))
            ==> name_in(names, #[trigger] key_at(arr, e2, k2))
}

/// `name` is the key of some entry of some element.
pub open spec fn is_key_of(arr: Seq<JsonValue>, name: Seq<char>) -> bool {
    exists|e: int, k: int|
        0 <= e < arr.len() && 0 <= k < entries_of(arr[e]).len() && #[trigger] key_at(arr, e, k) == name
}

/// The distinct keys of the object elements of `arr`, in order of first appearance.
fn element_keys(arr: &Vec<JsonValue>) -> (names: Vec<String>)
    ensures
        keys_covered(names@, arr@, arr@.len() as int, 0),
        forall|f: int| 0 <= f < names@.len() ==> is_key_of(arr@, (#[trigger] names@[f])@),
{
    let mut names: Vec<String> = Vec::new();
    let mut e: usize = 0;
    while e < arr.len()
        invariant
            e <= arr@.len(),
            keys_covered(names@, arr@, e as int, 0),
            forall|f: int| 0 <= f < names@.len() ==> is_key_of(arr@, (#[trigger] names@[f])@),
        decreases arr.len() - e,
    {
        match &arr[e] {
            JsonValue::Object(entries) => {
                let mut k: usize = 0;
                while k < entries.len()
                    invariant
                        e < arr@.len(),
                        arr@[e as int] == JsonValue::Object(*entries),
                        k <= entries@.len(),
                        keys_covered(names@, arr@, e as int, k as int),
                        forall|f: int| 0 <= f < names@.len() ==> is_key_of(arr@, (#[trigger] names@[f])@),
                    decreases entries.len() - k,
                {
                    let key = &entries[k].0;
                    proof {
                        assert(key_at(arr@, e as int, k as int) == key@);
                    }
                    let mut f: usize = 0;
                    let mut found = false;
                    while f < names.len()
                        invariant
                            f <= names@.len(),
                            found ==> name_in(names@, key@),
                        decreases names.len() - f,
                    {
                        if text_eq(names[f].as_str(), key.as_str()) {
                            proof {
                                assert((names@[f as int])@ == key@);
                            }
                            found = true;
                        }
                        f = f + 1;
                    }
                    let ghost before = names@;
                    if !found {
                        names.push(key.clone());
                        proof {
                            assert(names@[before.len() as int]@ == key@);
                            assert forall|x: Seq<char>| name_in(before, x) implies name_in(names@, x) by {
                                let g = choose|g: int| 0 <= g < before.len() && (#[trigger] before[g])@ == x;
                                assert(names@[g] == before[g]);
                            }
                            assert forall|f2: int| 0 <= f2 < names@.len() implies is_key_of(arr@, (#[trigger] names@[f2])@) by {
                                if f2 < before.len() {
                                    assert(names@[f2] == before[f2]);
                                } else {
                                    assert(key_at(arr@, e as int, k as int) == names@[f2]@);
                                }
                            }
                        }
                    }
                    proof {
                        assert(name_in(names@, key@));
                        assert forall|e2: int, k2: int|
                            0 <= e2 && 0 <= k2 && k2 < entries_of(arr@[e2]).len() && (e2 < e || (e2 == e && k2
                                < k + 1)) implies name_in(names@, #[trigger] key_at(arr@, e2, k2)) by {
                            if !(e2 == e && k2 == k) {
                                assert(name_in(before, key_at(arr@, e2, k2)));
                                if !found {
                                    let g = choose|g: int| 0 <= g < before.len() && (#[trigger] before[g])@ == key_at(arr@, e2, k2);
                                    assert(names@[g] == before[g]);
                                }
                            }
                        }
                    }
                    k = k + 1;
                }
                proof {
                    assert forall|e2: int, k2: int|
                        0 <= e2 && 0 <= k2 && k2 < entries_of(arr@[e2]).len() && (e2 < e + 1 || (e2 == e + 1 && k2
                            < 0)) implies name_in(names@, #[trigger] key_at(arr@, e2, k2)) by {
                        if e2 == e {
                            assert(entries_of(arr@[e2]).len() == entries@.len());
                        }
                    }
                }
            },
            _ => {
                proof {
                    assert forall|e2: int, k2: int|
                        0 <= e2 && 0 <= k2 && k2 < entries_of(arr@[e2]).len() && (e2 < e + 1 || (e2 == e + 1 && k2
                            < 0)) implies name_in(names@, #[trigger] key_at(arr@, e2, k2)) by {
                        if e2 == e {
                            assert(entries_of(arr@[e2]).len() == 0);
                        }
                    }
                }
            },
        }
        e = e + 1;
    }
    names
}

/// The values of all entries under `name`, element by element.
fn values_under<'a>(arr: &'a Vec<JsonValue>, name: &str) -> (r: Vec<&'a JsonValue>)
    ensures
        r@.len() == occurrences(arr@, name@, arr@.len() as int),
{
    let mut values: Vec<&JsonValue> = Vec::new();
    let mut e: usize = 0;
    while e < arr.len()
        invariant
            e <= arr@.len(),
            values@.len() == occurrences(arr@, name@, e as int),
        decreases arr.len() - e,
    {
        let ghost before = values@.len();
        match &arr[e] {
            JsonValue::Object(entries) => {
                let mut k: usize = 0;
                proof {
                    assert(entries@.subrange(0, 0) =~= Seq::<(String, JsonValue)>::empty());
                }
                while k < entries.len()
                    invariant
                        k <= entries@.len(),
                        values@.len() == before + count_key(entries@.subrange(0, k as int), name@),
                    decreases entries.len() - k,
                {
                    proof {
                        assert(entries@.subrange(0, k + 1).drop_last() == entries@.subrange(0, k as int));
                    }
                    if text_eq(entries[k].0.as_str(), name) {
                        values.push(&entries[k].1);
                    }
                    k = k + 1;
                }
                proof {
                    assert(entries@.subrange(0, k as int) == entries@);
                    assert(entries_of(arr@[e as int]) == entries@);
                }
            },
            _ => {},
        }
        e = e + 1;
    }
    values
}

proof fn lemma_insert_keeps(
    old_s: Seq<(usize, NodeFieldInfo)>,
    new_s: Seq<(usize, NodeFieldInfo)>,
    x: (usize, NodeFieldInfo),
    arr: Seq<JsonValue>,
)
    requires
        exists|pos: int| 0 <= pos <= old_s.len() && new_s == old_s.insert(pos, x),
        forall|j: int| 0 <= j < old_s.len() ==> (#[trigger] old_s[j]).0 == occurrences(arr, old_s[j].1.name@, arr.len() as int),
        x.0 == occurrences(arr, x.1.name@, arr.len() as int),
    ensures
        forall|j: int| 0 <= j < new_s.len() ==> (#[trigger] new_s[j]).0 == occurrences(arr, new_s[j].1.name@, arr.len() as int),
        forall|j: int|
            #![trigger old_s[j]]
            0 <= j < old_s.len() ==> exists|i: int| #![trigger new_s[i]] 0 <= i < new_s.len() && new_s[i] == old_s[j],
        exists|i: int| #![trigger new_s[i]] 0 <= i < new_s.len() && new_s[i] == x,
        forall|i: int|
            #![trigger new_s[i]]
            0 <= i < new_s.len() ==> (new_s[i] == x || exists|j: int| #![trigger old_s[j]] 0 <= j < old_s.len() && old_s[j] == new_s[i]),
{
    let pos = choose|pos: int| 0 <= pos <= old_s.len() && new_s == old_s.insert(pos, x);
    assert forall|j: int| 0 <= j < new_s.len() implies (#[trigger] new_s[j]).0 == occurrences(arr, new_s[j].1.name@, arr.len() as int) by {
        if j < pos {
            assert(new_s[j] == old_s[j]);
        } else if j > pos {
            assert(new_s[j] == old_s[j - 1]);
        }
    }
    assert forall|j: int| #![trigger old_s[j]] 0 <= j < old_s.len() implies exists|i: int| #![trigger new_s[i]] 0 <= i < new_s.len() && new_s[i] == old_s[j] by {
        if j < pos {
            assert(new_s[j] == old_s[j]);
        } else {
            assert(new_s[j + 1] == old_s[j]);
        }
    }
    assert(new_s[pos] == x);
    assert forall|i: int| #![trigger new_s[i]] 0 <= i < new_s.len() implies (new_s[i] == x || exists|j: int| #![trigger old_s[j]] 0 <= j < old_s.len() && old_s[j] == new_s[i]) by {
        if i < pos {
            assert(old_s[i] == new_s[i]);
        } else if i > pos {
            assert(old_s[i - 1] == new_s[i]);
        }
    }
}

/// Some analyzed field of `sorted` has the name `name`.
pub open spec fn covers(sorted: Seq<(usize, NodeFieldInfo)>, name: Seq<char>) -> bool {
    exists|j: int| 0 <= j < sorted.len() && (#[trigger] sorted[j]).1.name@ == name
}

/// Analyzes the elements of an array found at `path`: the fields of its
/// object elements, most frequent first, with the recommendations that follow.
fn analyze_array(arr: &Vec<JsonValue>, path: &str) -> (r: SchemaResult<ArraySchema>)
    ensures
        r matches Ok(a) && a.path@ == path@ && a.element_count == arr@.len()
            && recommendations_follow(a),
        r matches Ok(a) ==> forall|q: int|
            0 <= q < a.fields@.len() ==> is_key_of(arr@, (#[trigger] a.fields@[q]).name@),
        r matches Ok(a) ==> forall|e: int, k: int|
            #![trigger key_at(arr@, e, k)]
            0 <= e < arr@.len() && 0 <= k < entries_of(arr@[e]).len() ==> exists|q: int|
                0 <= q < a.fields@.len() && (#[trigger] a.fields@[q]).name@ == key_at(arr@, e, k),
        r matches Ok(a) ==> forall|q1: int, q2: int|
            0 <= q1 < q2 < a.fields@.len() ==> occurrences(arr@, (#[trigger] a.fields@[q1]).name@, arr@.len() as int)
                >= occurrences(arr@, (#[trigger] a.fields@[q2]).name@, arr@.len() as int),
{
    let element_count = arr.len();
    let names = element_keys(arr);
    let mut sorted: Vec<(usize, NodeFieldInfo)> = Vec::new();
    let mut f: usize = 0;
    while f < names.len()
        invariant
            f <= names@.len(),
            element_count == arr@.len(),
            forall|a: int, b: int| 0 <= a < b < sorted@.len() ==> sorted@[a].0 >= sorted@[b].0,
            forall|j: int| 0 <= j < sorted@.len() ==> (#[trigger] sorted@[j]).0 == occurrences(arr@, sorted@[j].1.name@, arr@.len() as int),
            forall|j: int| 0 <= j < sorted@.len() ==> name_in(names@, (#[trigger] sorted@[j]).1.name@),
            forall|g: int| #![trigger names@[g]] 0 <= g < f ==> covers(sorted@, names@[g]@),
        decreases names.len() - f,
    {
        let values = values_under(arr, names[f].as_str());
        let count = values.len();
        let info = analyze_field(names[f].as_str(), &values, count, element_count);
        let ghost before = sorted@;
        proof {
            assert(info.name@ == names@[f as int]@);
        }
        insert_by_count(&mut sorted, count, info);
        proof {
            let x = (count, info);
            lemma_insert_keeps(before, sorted@, x, arr@);
            assert forall|j: int| 0 <= j < sorted@.len() implies name_in(names@, (#[trigger] sorted@[j]).1.name@) by {
                if sorted@[j] != x {
                    let i = choose|i: int| #![trigger before[i]] 0 <= i < before.len() && before[i] == sorted@[j];
                    assert(name_in(names@, before[i].1.name@));
                } else {
                    assert(names@[f as int]@ == sorted@[j].1.name@);
                }
            }
            assert forall|g: int| #![trigger names@[g]] 0 <= g < f + 1 implies covers(sorted@, names@[g]@) by {
                if g < f {
                    assert(covers(before, names@[g]@));
                    let j0 = choose|j: int| 0 <= j < before.len() && (#[trigger] before[j]).1.name@ == names@[g]@;
                    assert(before[j0] == before[j0]);
                    let i = choose|i: int| #![trigger sorted@[i]] 0 <= i < sorted@.len() && sorted@[i] == before[j0];
                } else {
                    let i = choose|i: int| #![trigger sorted@[i]] 0 <= i < sorted@.len() && sorted@[i] == x;
                }
            }
        }
        f = f + 1;
    }
    proof {
        assert(f == names@.len());
        assert(forall|g: int| #![trigger names@[g]] 0 <= g < f ==> covers(sorted@, names@[g]@));
    }
    let mut fields: Vec<NodeFieldInfo> = Vec::new();
    let mut relations: Vec<String> = Vec::new();
    let mut i: usize = 0;
    while i < sorted.len()
        invariant
            i <= sorted@.len(),
            fields@.len() == i,
            forall|q: int| 0 <= q < i ==> #[trigger] fields@[q] == sorted@[q].1,
            forall|a: int, b: int| 0 <= a < b < sorted@.len() ==> sorted@[a].0 >= sorted@[b].0,
            forall|j: int| 0 <= j < sorted@.len() ==> (#[trigger] sorted@[j]).0 == occurrences(arr@, sorted@[j].1.name@, arr@.len() as int),
            forall|j: int| 0 <= j < sorted@.len() ==> name_in(names@, (#[trigger] sorted@[j]).1.name@),
            forall|g: int| #![trigger names@[g]] 0 <= g < names@.len() ==> covers(sorted@, names@[g]@),
            keys_covered(names@, arr@, arr@.len() as int, 0),
            forall|g: int| 0 <= g < names@.len() ==> is_key_of(arr@, (#[trigger] names@[g])@),
            string_views(relations@) == relation_names(fields@),
        decreases sorted.len() - i,
    {
        let info = sorted[i].1.clone();
        let ghost before = fields@;
        if info.is_relation_candidate {
            let ghost rb = relations@;
            relations.push(info.name.clone());
            proof {
                assert(string_views(relations@) =~= string_views(rb).push(info.name@));
            }
        }
        fields.push(info);
        proof {
            assert(fields@.drop_last() == before);
        }
        i = i + 1;
    }
    let id_field = match first_field_name(&fields, 0) {
        Some(n) => Some(n),
        None => first_field_name(&fields, 1),
    };
    let label_field = match first_field_name(&fields, 2) {
        Some(n) => Some(n),
        None => first_field_name(&fields, 3),
    };
    proof {
        assert forall|q: int| 0 <= q < fields@.len() implies is_key_of(arr@, (#[trigger] fields@[q]).name@) by {
            assert(fields@[q] == sorted@[q].1);
            assert(name_in(names@, sorted@[q].1.name@));
            let g = choose|g: int| 0 <= g < names@.len() && (#[trigger] names@[g])@ == sorted@[q].1.name@;
            assert(is_key_of(arr@, names@[g]@));
        }
        assert forall|e: int, k: int|
            #![trigger key_at(arr@, e, k)]
            0 <= e < arr@.len() && 0 <= k < entries_of(arr@[e]).len() implies exists|q: int|
            0 <= q < fields@.len() && (#[trigger] fields@[q]).name@ == key_at(arr@, e, k) by {
            assert(name_in(names@, key_at(arr@, e, k)));
            let g = choose|g: int| 0 <= g < names@.len() && (#[trigger] names@[g])@ == key_at(arr@, e, k);
            assert(covers(sorted@, names@[g]@));
            let j = choose|j: int| 0 <= j < sorted@.len() && (#[trigger] sorted@[j]).1.name@ == names@[g]@;
            assert(fields@[j] == sorted@[j].1);
        }
        assert forall|q1: int, q2: int| 0 <= q1 < q2 < fields@.len() implies occurrences(arr@, (#[trigger] fields@[q1]).name@, arr@.len() as int)
            >= occurrences(arr@, (#[trigger] fields@[q2]).name@, arr@.len() as int) by {
            assert(fields@[q1] == sorted@[q1].1);
            assert(fields@[q2] == sorted@[q2].1);
            assert(sorted@[q1].0 >= sorted@[q2].0);
        }
    }
    Ok(
        ArraySchema {
            path: path.to_owned(),
            element_count,
            fields,
            recommended_id_field: id_field,
            recommended_label_field: label_field,
            recommended_relation_fields: relations,
        },
    )
}

/// `found` lists, after the schemas of `before`, one schema per array found:
/// its path and element count.
pub open spec fn extends_with(before: Seq<ArraySchema>, after: Seq<ArraySchema>, found: Seq<(Seq<char>, nat)>) -> bool {
    &&& after.len() == before.len() + found.len()
    &&& forall|k: int| 0 <= k < before.len() ==> #[trigger] after[k] == before[k]
    &&& forall|k: int|
        0 <= k < found.len() ==> (#[trigger] after[before.len() + k]).path@ == found[k].0
            && after[before.len() + k].element_count == found[k].1
            && recommendations_follow(after[before.len() + k])
}

proof fn lemma_extends_trans(
    a: Seq<ArraySchema>,
    b: Seq<ArraySchema>,
    c: Seq<ArraySchema>,
    f1: Seq<(Seq<char>, nat)>,
    f2: Seq<(Seq<char>, nat)>,
)
    requires
        extends_with(a, b, f1),
        extends_with(b, c, f2),
    ensures
        extends_with(a, c, f1 + f2),
{
    assert forall|k: int| 0 <= k < (f1 + f2).len() implies (#[trigger] c[a.len() + k]).path@ == (f1 + f2)[k].0
        && c[a.len() + k].element_count == (f1 + f2)[k].1 && recommendations_follow(c[a.len() + k]) by {
        if k < f1.len() {
            assert(c[a.len() + k] == b[a.len() + k]);
        } else {
            let k2 = k - f1.len();
            assert(c[b.len() + k2] == c[a.len() + k]);
        }
    }
    assert forall|k: int| 0 <= k < a.len() implies #[trigger] c[k] == a[k] by {
        assert(c[k] == b[k]);
    }
}

/// Collects a schema for every non-empty array in `data`, depth first.
fn find_arrays(data: &JsonValue, current_path: &str, results: &mut Vec<ArraySchema>)
    ensures
        extends_with(old(results)@, final(results)@, arrays_in(*data, current_path@)),
    decreases data,
{
    match data {
        JsonValue::Array(arr) => {
            if arr.len() > 0 {
                match analyze_array(arr, current_path) {
                    Ok(schema) => {
                        results.push(schema);
                    },
                    Err(_) => {},
                }
            }
        },
        JsonValue::Object(obj) => {
            let ghost start = results@;
            let mut i: usize = 0;
            proof {
                assert(obj@.subrange(0, 0) =~= Seq::<(String, JsonValue)>::empty());
                assert(results@ =~= start);
            }
            while i < obj.len()
                invariant
                    *data == JsonValue::Object(*obj),
                    start == old(results)@,
                    i <= obj@.len(),
                    extends_with(start, results@, arrays_in_entries(obj@.subrange(0, i as int), current_path@)),
                decreases obj.len() - i,
            {
                let key = &obj[i].0;
                let new_path = if current_path.unicode_len() == 0 {
                    key.clone()
                } else {
                    proof {
                        reveal_strlit(".");
                    }
                    current_path.to_owned().concat(".").concat(key.as_str())
                };
                proof {
                    assert(new_path@ =~= join_path(current_path@, key@));
                    assert(decreases_to!(*data => data->Object_0));
                    assert(decreases_to!(*data => obj[i as int]));
                    assert(decreases_to!(*data => obj[i as int].1));
                }
                let ghost mid = results@;
                find_arrays(&obj[i].1, new_path.as_str(), results);
                proof {
                    let pre = obj@.subrange(0, i + 1);
                    assert(pre.subrange(0, pre.len() - 1) == obj@.subrange(0, i as int));
                    assert(pre[pre.len() - 1] == obj@[i as int]);
                    lemma_extends_trans(
                        start,
                        mid,
                        results@,
                        arrays_in_entries(obj@.subrange(0, i as int), current_path@),
                        arrays_in(obj@[i as int].1, join_path(current_path@, key@)),
                    );
                }
                i = i + 1;
            }
            proof {
                assert(obj@.subrange(0, i as int) == obj@);
            }
        },
        _ => {},
    }
}

/// The number of dots in a text.
pub open spec fn count_dots(s: Seq<char>) -> nat
    decreases s.len(),
{
    if s.len() == 0 {
        0
    } else {
        count_dots(s.drop_last()) + if s.last() == '.' {
            1nat
        } else {
            0nat
        }
    }
}

/// How well an array suits graph construction: up to 100 for its elements,
/// 200 with an id field, 100 with a label field, 50 per relation field,
/// 10 off per level of nesting, 50 when the path mentions node, user or item.
pub open spec fn schema_score(a: ArraySchema) -> int {
    (if a.element_count < 100 { a.element_count as int } else { 100 })
        + (if a.recommended_id_field is Some { 200int } else { 0 })
        + (if a.recommended_label_field is Some { 100int } else { 0 })
        + 50 * a.recommended_relation_fields@.len()
        - 10 * count_dots(a.path@)
        + (if seq_contains(a.path@, seq!['n', 'o', 'd', 'e']) || seq_contains(a.path@, seq!['u', 's', 'e', 'r'])
            || seq_contains(a.path@, seq!['i', 't', 'e', 'm']) { 50int } else { 0 })
}

/// The first schema of highest score, where that score is not negative.
pub open spec fn best_index(s: Seq<ArraySchema>) -> Option<int>
    decreases s.len(),
{
    if s.len() == 0 {
        None
    } else {
        match best_index(s.drop_last()) {
            None => if schema_score(s.last()) > -1 {
                Some(s.len() - 1)
            } else {
                None
            },
            Some(j) => if schema_score(s.last()) > schema_score(s[j]) {
                Some(s.len() - 1)
            } else {
                Some(j)
            },
        }
    }
}

fn dots_in(s: &str) -> (r: usize)
    ensures
        r == count_dots(s@),
{
    let cs = crate::text::chars_of(s);
    let mut n: usize = 0;
    let mut i: usize = 0;
    while i < cs.len()
        invariant
            cs@ == s@,
            i <= cs@.len(),
            n == count_dots(s@.subrange(0, i as int)),
            n <= i,
        decreases cs.len() - i,
    {
        proof {
            assert(s@.subrange(0, i + 1).drop_last() == s@.subrange(0, i as int));
        }
        if cs[i] == '.' {
            n = n + 1;
        }
        i = i + 1;
    }
    proof {
        assert(s@.subrange(0, i as int) == s@);
    }
    n
}

fn score_of(a: &ArraySchema) -> (r: i128)
    ensures
        r == schema_score(*a),
{
    proof {
        reveal_strlit("node");
        reveal_strlit("user");
        reveal_strlit("item");
        assert("node"@ =~= seq!['n', 'o', 'd', 'e']);
        assert("user"@ =~= seq!['u', 's', 'e', 'r']);
        assert("item"@ =~= seq!['i', 't', 'e', 'm']);
    }
    let mut score: i128 = if a.element_count < 100 {
        a.element_count as i128
    } else {
        100
    };
    if a.recommended_id_field.is_some() {
        score = score + 200;
    }
    if a.recommended_label_field.is_some() {
        score = score + 100;
    }
    score = score + 50 * (a.recommended_relation_fields.len() as i128);
    score = score - 10 * (dots_in(a.path.as_str()) as i128);
    let p = a.path.as_str();
    if text_contains(p, "node") || text_contains(p, "user") || text_contains(p, "item") {
        score = score + 50;
    }
    score
}

/// The schema best suited to graph construction, as `best_index` picks it.
fn select_primary_schema(schemas: &Vec<ArraySchema>) -> (r: Option<ArraySchema>)
    ensures
        r is None <==> best_index(schemas@) is None,
        r matches Some(a) ==> best_index(schemas@) matches Some(i) && a.path == schemas@[i].path
            && a.element_count == schemas@[i].element_count && a.fields@ == schemas@[i].fields@
            && a.recommended_id_field == schemas@[i].recommended_id_field
            && a.recommended_label_field == schemas@[i].recommended_label_field
            && a.recommended_relation_fields@ == schemas@[i].recommended_relation_fields@,
{
    let mut best: Option<usize> = None;
    let mut best_score: i128 = -1;
    let mut i: usize = 0;
    proof {
        assert(schemas@.subrange(0, 0) =~= Seq::<ArraySchema>::empty());
    }
    while i < schemas.len()
        invariant
            i <= schemas@.len(),
            best == (match best_index(schemas@.subrange(0, i as int)) {
                Some(j) => Some(j as usize),
                None => None::<usize>,
            }),
            best_index(schemas@.subrange(0, i as int)) matches Some(j) ==> 0 <= j < i && best_score == schema_score(schemas@[j]),
            best_index(schemas@.subrange(0, i as int)) is None ==> best_score == -1,
        decreases schemas.len() - i,
    {
        let ghost pre = schemas@.subrange(0, i + 1);
        proof {
            assert(pre.drop_last() == schemas@.subrange(0, i as int));
            assert(pre.last() == schemas@[i as int]);
            if let Some(j) = best_index(schemas@.subrange(0, i as int)) {
                assert(pre[j] == schemas@[j]);
            }
        }
        let score = score_of(&schemas[i]);
        if score > best_score {
            best_score = score;
            best = Some(i);
        }
        i = i + 1;
    }
    proof {
        assert(schemas@.subrange(0, i as int) == schemas@);
    }
    match best {
        Some(j) => Some(schemas[j].clone()),
        None => None,
    }
}

impl SchemaDetection {
    pub fn new(
        array_schemas: Vec<ArraySchema>,
        primary_recommendation: Option<ArraySchema>,
    ) -> (r: SchemaDetection)
        ensures
            r.array_schemas == array_schemas,
            r.primary_recommendation == primary_recommendation,
    {
        SchemaDetection { array_schemas, primary_recommendation }
    }

    /// The graph configuration of the primary array, where it has an id field.
    pub fn to_graph_config(&self) -> (r: Option<GraphConfig>)
        ensures
            r is None <==> !(self.primary_recommendation matches Some(a) && a.recommended_id_field is Some),
            r matches Some(c) ==> (self.primary_recommendation matches Some(a) && a.recommended_id_field
                == Some(c.id_field) && c.node_path == a.path && c.label_field
                == a.recommended_label_field && c.relation_fields@ == a.recommended_relation_fields@),
    {
        match &self.primary_recommendation {
            Some(schema) => match &schema.recommended_id_field {
                Some(id) => Some(
                    GraphConfig {
                        node_path: schema.path.clone(),
                        id_field: id.clone(),
                        label_field: clone_opt(&schema.recommended_label_field),
                        relation_fields: clone_strings(&schema.recommended_relation_fields),
                    },
                ),
                None => None,
            },
            None => None,
        }
    }

    /// A graph configuration for every detected array that has an id field, in order.
    pub fn to_graph_configs(&self) -> (r: Vec<GraphConfig>)
        ensures
            r@.len() == configurable_count(self.array_schemas@),
            forall|k: int|
                0 <= k < r@.len() ==> exists|i: int|
                    0 <= i < self.array_schemas@.len() && (#[trigger] r@[k]).node_path
                        == self.array_schemas@[i].path && self.array_schemas@[i].recommended_id_field
                        == Some(r@[k].id_field),
    {
        let mut out: Vec<GraphConfig> = Vec::new();
        let mut i: usize = 0;
        while i < self.array_schemas.len()
            invariant
                i <= self.array_schemas@.len(),
                out@.len() == configurable_count(self.array_schemas@.subrange(0, i as int)),
                forall|k: int|
                    0 <= k < out@.len() ==> exists|j: int|
                        0 <= j < self.array_schemas@.len() && (#[trigger] out@[k]).node_path
                            == self.array_schemas@[j].path && self.array_schemas@[j].recommended_id_field
                            == Some(out@[k].id_field),
            decreases self.array_schemas.len() - i,
        {
            let schema = &self.array_schemas[i];
            proof {
                assert(self.array_schemas@.subrange(0, i + 1).drop_last() == self.array_schemas@.subrange(0, i as int));
            }
            if let Some(id) = &schema.recommended_id_field {
                let ghost before = out@;
                out.push(
                    GraphConfig {
                        node_path: schema.path.clone(),
                        id_field: id.clone(),
                        label_field: clone_opt(&schema.recommended_label_field),
                        relation_fields: clone_strings(&schema.recommended_relation_fields),
                    },
                );
                proof {
                    assert forall|k: int| 0 <= k < out@.len() implies exists|j: int|
                        0 <= j < self.array_schemas@.len() && (#[trigger] out@[k]).node_path
                            == self.array_schemas@[j].path && self.array_schemas@[j].recommended_id_field
                            == Some(out@[k].id_field) by {
                        if k < before.len() {
                            assert(out@[k] == before[k]);
                        } else {
                            assert(out@[k].node_path == self.array_schemas@[i as int].path);
                        }
                    }
                }
            }
            i = i + 1;
        }
        proof {
            assert(self.array_schemas@.subrange(0, i as int) == self.array_schemas@);
        }
        out
    }
}

/// The number of schemas that have an id field.
pub open spec fn configurable_count(s: Seq<ArraySchema>) -> nat
    decreases s.len(),
{
    if s.len() == 0 {
        0
    } else {
        configurable_count(s.drop_last()) + if s.last().recommended_id_field is Some {
            1nat
        } else {
            0nat
        }
    }
}

/// `c` is the configuration of the primary array of `data`: the array that
/// `best_index` picks among those found, with its path, id field, label
/// field and relation fields.
pub open spec fn inferred_config(data: JsonValue, c: GraphConfig) -> bool {
    exists|schemas: Seq<ArraySchema>|
        #[trigger] extends_with(Seq::empty(), schemas, arrays_in(data, Seq::empty()))
            && (best_index(schemas) matches Some(i) && schemas[i].path == c.node_path
            && schemas[i].recommended_id_field == Some(c.id_field)
            && schemas[i].recommended_label_field == c.label_field
            && schemas[i].recommended_relation_fields@ == c.relation_fields@)
}

/// Analysis finds arrays in `data`, but the primary one (by `best_index`)
/// is missing or has no id field.
pub open spec fn no_config(data: JsonValue) -> bool {
    exists|schemas: Seq<ArraySchema>|
        #[trigger] extends_with(Seq::empty(), schemas, arrays_in(data, Seq::empty())) && schemas.len()
            > 0 && match best_index(schemas) {
            Some(i) => schemas[i].recommended_id_field is None,
            None => true,
        }
}

/// Schema detection for JSON documents.
#[derive(Debug)]
pub struct SchemaAnalyzer;

impl SchemaAnalyzer {
    /// Finds every non-empty array of the document, analyzes each, and picks
    /// the primary one. Fails with `NoArrayFound` when there is none.
    pub fn analyze(data: &JsonValue) -> (r: SchemaResult<SchemaDetection>)
        ensures
            r is Err <==> arrays_in(*data, Seq::empty()).len() == 0,
            r matches Err(e) ==> e is NoArrayFound,
            r matches Ok(d) ==> extends_with(Seq::empty(), d.array_schemas@, arrays_in(*data, Seq::empty())),
            r matches Ok(d) ==> (d.primary_recommendation is None <==> best_index(d.array_schemas@) is None),
            r matches Ok(d) ==> (d.primary_recommendation matches Some(a) ==> best_index(d.array_schemas@) matches Some(i)
                && a.path == d.array_schemas@[i].path && a.element_count == d.array_schemas@[i].element_count
                && a.fields@ == d.array_schemas@[i].fields@
                && a.recommended_id_field == d.array_schemas@[i].recommended_id_field
                && a.recommended_label_field == d.array_schemas@[i].recommended_label_field
                && a.recommended_relation_fields@ == d.array_schemas@[i].recommended_relation_fields@),
    {
        let mut array_schemas: Vec<ArraySchema> = Vec::new();
        proof {
            reveal_strlit("");
            assert(""@ =~= Seq::<char>::empty());
        }
        find_arrays(data, "", &mut array_schemas);
        if array_schemas.len() == 0 {
            return Err(SchemaError::NoArrayFound);
        }
        let primary_recommendation = select_primary_schema(&array_schemas);
        Ok(SchemaDetection::new(array_schemas, primary_recommendation))
    }

    /// The graph configuration that analysis recommends: that of the primary
    /// array, which must have an id field.
    pub fn infer_graph_config(data: &JsonValue) -> (r: SchemaResult<GraphConfig>)
        ensures
            r matches Err(SchemaError::NoArrayFound) <==> arrays_in(*data, Seq::empty()).len() == 0,
            r matches Err(e) ==> e is NoArrayFound || e is InvalidJson,
            r matches Ok(c) ==> inferred_config(*data, c),
            r matches Err(SchemaError::InvalidJson(_)) ==> no_config(*data),
    {
        let detection = match Self::analyze(data) {
            Ok(d) => d,
            Err(e) => {
                return Err(e);
            },
        };
        proof {
            assert(extends_with(Seq::empty(), detection.array_schemas@, arrays_in(*data, Seq::empty())));
        }
        match detection.to_graph_config() {
            Some(c) => {
                proof {
                    let schemas = detection.array_schemas@;
                    assert(extends_with(Seq::empty(), schemas, arrays_in(*data, Seq::empty())));
                    assert(best_index(schemas) is Some);
                }
                Ok(c)
            },
            None => {
                Err(SchemaError::InvalidJson(String::from_str("Could not infer graph config")))
            },
        }
    }
}

/// The pieces of `items` joined by `sep`.
pub open spec fn join(items: Seq<Seq<char>>, sep: Seq<char>) -> Seq<char>
    decreases items.len(),
{
    if items.len() == 0 {
        Seq::empty()
    } else if items.len() == 1 {
        items[0]
    } else {
        join(items.drop_last(), sep) + sep + items.last()
    }
}

/// Joins strings with a separator, as `join` gives it.
fn join_strings(items: &Vec<String>, sep: &str) -> (r: String)
    ensures
        r@ == join(string_views(items@), sep@),
{
    let mut out = String::new();
    let mut i: usize = 0;
    proof {
        assert(string_views(items@).subrange(0, 0) =~= Seq::<Seq<char>>::empty());
    }
    while i < items.len()
        invariant
            i <= items@.len(),
            out@ == join(string_views(items@).subrange(0, i as int), sep@),
        decreases items.len() - i,
    {
        let ghost views = string_views(items@);
        proof {
            assert(views.subrange(0, i + 1).drop_last() == views.subrange(0, i as int));
            assert(views.subrange(0, i + 1).last() == items@[i as int]@);
        }
        if i > 0 {
            out = out.concat(sep);
        }
        out = out.concat(items[i].as_str());
        proof {
            if i == 0 {
                assert(views.subrange(0, 1) =~= seq![items@[0]@]);
                assert(out@ =~= items@[0]@);
            }
        }
        i = i + 1;
    }
    proof {
        assert(string_views(items@).subrange(0, i as int) == string_views(items@));
    }
    out
}

/// The last dot-separated piece of a path.
pub open spec fn last_segment(path: Seq<char>) -> Seq<char> {
    split_dot(path).last()
}

fn last_segment_of(path: &str) -> (r: String)
    ensures
        r@ == last_segment(path@),
{
    let mut parts = split_path(path);
    proof {
        crate::engine::storage::json::lemma_split_dot_nonempty(path@);
    }
    let ghost views = string_views(parts@);
    let last = parts.pop();
    match last {
        Some(s) => {
            proof {
                assert(s@ == views.last());
            }
            s
        },
        None => String::new(),
    }
}

/// The names of the fields other than relations and the id field, in order.
pub open spec fn property_names(fields: Seq<NodeFieldInfo>, id: Seq<char>) -> Seq<Seq<char>>
    decreases fields.len(),
{
    if fields.len() == 0 {
        Seq::empty()
    } else if !fields.last().is_relation_candidate && fields.last().name@ != id {
        property_names(fields.drop_last(), id).push(fields.last().name@)
    } else {
        property_names(fields.drop_last(), id)
    }
}

/// `name: TYPE` for every field other than relations, in order.
pub open spec fn typed_property_names(fields: Seq<NodeFieldInfo>) -> Seq<Seq<char>>
    decreases fields.len(),
{
    if fields.len() == 0 {
        Seq::empty()
    } else if !fields.last().is_relation_candidate {
        typed_property_names(fields.drop_last()).push(
            fields.last().name@ + ": "@ + type_text(fields.last().field_type),
        )
    } else {
        typed_property_names(fields.drop_last())
    }
}

pub open spec fn type_text(t: FieldType) -> Seq<char> {
    match t {
        FieldType::String => "STRING"@,
        FieldType::Number => "NUMBER"@,
        FieldType::Boolean => "BOOLEAN"@,
        FieldType::Array => "ARRAY"@,
        FieldType::Object => "OBJECT"@,
        FieldType::Null => "NULL"@,
    }
}

/// The schema that the renderings describe: the primary one, else the first.
pub open spec fn described_schema(d: SchemaDetection) -> Option<ArraySchema> {
    match d.primary_recommendation {
        Some(a) => Some(a),
        None => if d.array_schemas@.len() > 0 {
            Some(d.array_schemas@[0])
        } else {
            None
        },
    }
}

/// `(:Type {id, name, age})`, or `(:{Type:id})` when there are no other properties.
pub open spec fn node_pattern_text(node_type: Seq<char>, id: Seq<char>, props: Seq<Seq<char>>) -> Seq<char> {
    if props.len() == 0 {
        "(:{"@ + node_type + ":"@ + id + "})"@
    } else {
        "(:"@ + node_type + " {"@ + id + ", "@ + join(props, ", "@) + "})"@
    }
}

/// One `node-[:rel]->node` piece per relation field.
pub open spec fn relation_patterns(np: Seq<char>, rels: Seq<Seq<char>>) -> Seq<Seq<char>> {
    rels.map_values(|r: Seq<char>| np + "-[:"@ + r + "]->"@ + np)
}

/// The compact pattern of a schema.
pub open spec fn pattern_text(a: ArraySchema) -> Seq<char> {
    let id = match a.recommended_id_field {
        Some(f) => f@,
        None => "id"@,
    };
    let np = node_pattern_text(last_segment(a.path@), id, property_names(a.fields@, id));
    let rels = string_views(a.recommended_relation_fields@);
    if rels.len() == 0 {
        np
    } else {
        join(relation_patterns(np, rels), " | "@)
    }
}

/// `  (:T)-[:rel]->(:T)\n` for every relation field.
pub open spec fn relationship_lines(prefix: Seq<char>, rels: Seq<Seq<char>>) -> Seq<char>
    decreases rels.len(),
{
    if rels.len() == 0 {
        Seq::empty()
    } else {
        relationship_lines(prefix, rels.drop_last()) + "  (:"@ + prefix + ")-[:"@ + rels.last()
            + "]->(:"@ + prefix + ")\n"@
    }
}

/// The schema overview of an array schema.
pub open spec fn overview_text(a: ArraySchema) -> Seq<char> {
    let prefix = last_segment(a.path@);
    let label = match a.recommended_label_field {
        Some(f) => prefix + " (by "@ + f@ + ")"@,
        None => prefix,
    };
    let rels = string_views(a.recommended_relation_fields@);
    "Graph Schema\n============\n\n"@ + "Node Types:\n"@ + "  (:"@ + label + ")\n"@ + "\n"@
        + "Properties:\n"@ + "  :"@ + prefix + " {"@ + join(typed_property_names(a.fields@), ", "@)
        + "}\n"@ + "\n"@ + if rels.len() == 0 {
        Seq::empty()
    } else {
        "Relationship Types:\n"@ + relationship_lines(prefix, rels)
    }
}

impl SchemaDetection {
    /// An overview of the primary (else the first) schema: its node type,
    /// properties and relationship types.
    pub fn to_neo4j_schema(&self) -> (r: String)
        ensures
            described_schema(*self) matches Some(a) ==> r@ == overview_text(a),
            described_schema(*self) is None ==> r@ == "No schema detected"@,
    {
        let schema = match &self.primary_recommendation {
            Some(a) => a,
            None => {
                if self.array_schemas.len() == 0 {
                    return String::from_str("No schema detected");
                }
                &self.array_schemas[0]
            },
        };
        let prefix = last_segment_of(schema.path.as_str());
        let mut props: Vec<String> = Vec::new();
        let mut i: usize = 0;
        while i < schema.fields.len()
            invariant
                i <= schema.fields@.len(),
                string_views(props@) == typed_property_names(schema.fields@.subrange(0, i as int)),
            decreases schema.fields.len() - i,
        {
            let f = &schema.fields[i];
            proof {
                assert(schema.fields@.subrange(0, i + 1).drop_last() == schema.fields@.subrange(0, i as int));
            }
            if !f.is_relation_candidate {
                let ghost before = props@;
                let t = match f.field_type {
                    FieldType::String => "STRING",
                    FieldType::Number => "NUMBER",
                    FieldType::Boolean => "BOOLEAN",
                    FieldType::Array => "ARRAY",
                    FieldType::Object => "OBJECT",
                    FieldType::Null => "NULL",
                };
                props.push(f.name.clone().concat(": ").concat(t));
                proof {
                    assert(string_views(props@) =~= string_views(before).push(f.name@ + ": "@ + type_text(f.field_type)));
                }
            }
            i = i + 1;
        }
        proof {
            assert(schema.fields@.subrange(0, i as int) == schema.fields@);
        }
        let label = match &schema.recommended_label_field {
            Some(field) => prefix.clone().concat(" (by ").concat(field.as_str()).concat(")"),
            None => prefix.clone(),
        };
        let mut out = String::from_str("Graph Schema\n============\n\n");
        out = out.concat("Node Types:\n");
        out = out.concat("  (:").concat(label.as_str()).concat(")\n");
        out = out.concat("\n");
        out = out.concat("Properties:\n");
        out = out.concat("  :").concat(prefix.as_str()).concat(" {").concat(join_strings(&props, ", ").as_str()).concat("}\n");
        out = out.concat("\n");
        let rels = &schema.recommended_relation_fields;
        if rels.len() > 0 {
            let mut lines = String::new();
            let mut k: usize = 0;
            proof {
                assert(string_views(rels@).subrange(0, 0) =~= Seq::<Seq<char>>::empty());
            }
            while k < rels.len()
                invariant
                    k <= rels@.len(),
                    lines@ == relationship_lines(prefix@, string_views(rels@).subrange(0, k as int)),
                decreases rels.len() - k,
            {
                proof {
                    let v = string_views(rels@);
                    assert(v.subrange(0, k + 1).drop_last() == v.subrange(0, k as int));
                    assert(v.subrange(0, k + 1).last() == rels@[k as int]@);
                }
                lines = lines.concat("  (:").concat(prefix.as_str()).concat(")-[:").concat(rels[k].as_str()).concat("]->(:").concat(prefix.as_str()).concat(")\n");
                k = k + 1;
            }
            proof {
                assert(string_views(rels@).subrange(0, k as int) == string_views(rels@));
            }
            out = out.concat("Relationship Types:\n").concat(lines.as_str());
        }
        proof {
            let a = *schema;
            assert(out@ =~= overview_text(a));
        }
        out
    }

    /// A one-line pattern of the primary (else the first) schema:
    /// `(:Type {id, name, age})-[:rel]->(:Type {id, name, age})`, one piece per
    /// relation field joined by ` | `; `()` when nothing was detected.
    pub fn to_pattern(&self) -> (r: String)
        ensures
            described_schema(*self) matches Some(a) ==> r@ == pattern_text(a),
            described_schema(*self) is None ==> r@ == "()"@,
    {
        let schema = match &self.primary_recommendation {
            Some(a) => a,
            None => {
                if self.array_schemas.len() == 0 {
                    return String::from_str("()");
                }
                &self.array_schemas[0]
            },
        };
        let node_type = last_segment_of(schema.path.as_str());
        let id_field = match &schema.recommended_id_field {
            Some(f) => f.clone(),
            None => String::from_str("id"),
        };
        let mut props: Vec<String> = Vec::new();
        let mut i: usize = 0;
        while i < schema.fields.len()
            invariant
                i <= schema.fields@.len(),
                string_views(props@) == property_names(schema.fields@.subrange(0, i as int), id_field@),
            decreases schema.fields.len() - i,
        {
            let f = &schema.fields[i];
            proof {
                assert(schema.fields@.subrange(0, i + 1).drop_last() == schema.fields@.subrange(0, i as int));
            }
            if !f.is_relation_candidate && !text_eq(f.name.as_str(), id_field.as_str()) {
                let ghost before = props@;
                props.push(f.name.clone());
                proof {
                    assert(string_views(props@) =~= string_views(before).push(f.name@));
                }
            }
            i = i + 1;
        }
        proof {
            assert(schema.fields@.subrange(0, i as int) == schema.fields@);
        }
        let node_pattern = if props.len() == 0 {
            String::from_str("(:{").concat(node_type.as_str()).concat(":").concat(id_field.as_str()).concat("})")
        } else {
            String::from_str("(:").concat(node_type.as_str()).concat(" {").concat(id_field.as_str()).concat(", ").concat(join_strings(&props, ", ").as_str()).concat("})")
        };
        let rels = &schema.recommended_relation_fields;
        let mut patterns: Vec<String> = Vec::new();
        let mut k: usize = 0;
        while k < rels.len()
            invariant
                k <= rels@.len(),
                patterns@.len() == k,
                string_views(patterns@) == relation_patterns(node_pattern@, string_views(rels@).subrange(0, k as int)),
            decreases rels.len() - k,
        {
            let ghost before = patterns@;
            patterns.push(node_pattern.clone().concat("-[:").concat(rels[k].as_str()).concat("]->").concat(node_pattern.as_str()));
            proof {
                let want = relation_patterns(node_pattern@, string_views(rels@).subrange(0, k + 1));
                assert(string_views(patterns@).len() == want.len());
                assert forall|q: int| 0 <= q < want.len() implies string_views(patterns@)[q] == want[q] by {
                    if q < k {
                        assert(patterns@[q] == before[q]);
                        assert(string_views(before)[q] == relation_patterns(node_pattern@, string_views(rels@).subrange(0, k as int))[q]);
                    } else {
                        assert(string_views(rels@).subrange(0, k + 1)[q] == rels@[k as int]@);
                    }
                }
                assert(string_views(patterns@) =~= want);
            }
            k = k + 1;
        }
        proof {
            assert(string_views(rels@).subrange(0, k as int) == string_views(rels@));
            assert(node_pattern@ == node_pattern_text(last_segment(schema.path@), id_field@, property_names(schema.fields@, id_field@)));
        }
        if patterns.len() == 0 {
            node_pattern
        } else {
            join_strings(&patterns, " | ")
        }
    }
}

} // verus!
