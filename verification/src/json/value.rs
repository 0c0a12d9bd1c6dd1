use vstd::prelude::*;
use super::spec::{
    Json, compact, compact_elements, compact_members, pretty, pretty_elements, pretty_members,
    nesting, nesting_elements, nesting_members, compact_member,
};
use super::printing::{
    lemma_compact_elements_snoc, lemma_compact_members_snoc, lemma_pretty_elements_snoc,
    lemma_pretty_members_snoc, lemma_nesting_elements, lemma_nesting_members,
    lemma_compact_elements_join, lemma_compact_members_join, indentation, join_with_commas,
};

verus! {

/// A JSON value whose strings and keys borrow from the parsed text; a
/// number keeps its source text.
pub enum JsonValue<'a> {
    Null,
    Boolean(bool),
    Number(String),
    String(&'a str),
    Array(Vec<JsonValue<'a>>),
    Object(Vec<(&'a str, JsonValue<'a>)>),
}

/// The document a value denotes.
pub open spec fn json_of<'a>(v: JsonValue<'a>) -> Json
    decreases v, 0nat,
{
    match v {
        JsonValue::Null => Json::Null,
        JsonValue::Boolean(b) => Json::Bool(b),
        JsonValue::Number(n) => Json::Number(n@),
        JsonValue::String(s) => Json::Str(s@),
        JsonValue::Array(items) => Json::Array(json_list(items@)),
        JsonValue::Object(m) => Json::Object(json_members(m@)),
    }
}

/// The documents of a sequence of values.
pub open spec fn json_list<'a>(items: Seq<JsonValue<'a>>) -> Seq<Json>
    decreases items, 1nat,
{
    if items.len() == 0 {
        Seq::empty()
    } else {
        seq![json_of(items[0])] + json_list(items.drop_first())
    }
}

/// The members of an object.
pub open spec fn json_members<'a>(m: Seq<(&'a str, JsonValue<'a>)>) -> Seq<(Seq<char>, Json)>
    decreases m, 1nat,
{
    if m.len() == 0 {
        Seq::empty()
    } else {
        seq![(m[0].0@, json_of(m[0].1))] + json_members(m.drop_first())
    }
}

impl<'a> View for JsonValue<'a> {
    type V = Json;

    open spec fn view(&self) -> Json {
        json_of(*self)
    }
}

/// `json_list` maps element by element.
pub proof fn lemma_json_list<'a>(items: Seq<JsonValue<'a>>)
    ensures
        json_list(items).len() == items.len(),
        forall|k: int| 0 <= k < items.len() ==> #[trigger] json_list(items)[k] == json_of(items[k]),
    decreases items.len(),
{
    if items.len() > 0 {
        lemma_json_list(items.drop_first());
    }
}

/// `json_members` maps member by member.
pub proof fn lemma_json_members<'a>(m: Seq<(&'a str, JsonValue<'a>)>)
    ensures
        json_members(m).len() == m.len(),
        forall|k: int|
            0 <= k < m.len() ==> #[trigger] json_members(m)[k] == (m[k].0@, json_of(m[k].1)),
    decreases m.len(),
{
    if m.len() > 0 {
        lemma_json_members(m.drop_first());
    }
}

impl<'a> JsonValue<'a> {
    /// Compact JSON text (no white space).
    pub fn to_json_string(&self) -> (text: String)
        ensures
            text@ == compact(self@),
    {
        let mut buf = String::new();
        self.serialize(&mut buf);
        buf
    }

    /// Append the compact text of this value to `buf`.
    fn serialize(&self, buf: &mut String)
        ensures
            final(buf)@ == old(buf)@ + compact(self@),
        decreases self,
    {
        proof {
            reveal_strlit("\"");
            reveal_strlit(",");
            reveal_strlit("[");
            reveal_strlit("]");
            reveal_strlit("{");
            reveal_strlit("}");
            reveal_strlit("\":");
        }
        match self {
            JsonValue::Null => buf.append("null"),
            JsonValue::Boolean(b) => {
                if *b {
                    buf.append("true")
                } else {
                    buf.append("false")
                }
            },
            JsonValue::Number(n) => buf.append(n.as_str()),
            JsonValue::String(s) => {
                buf.append("\"");
                buf.append(s);
                buf.append("\"");
            },
            JsonValue::Array(arr) => {
                let ghost start = buf@;
                let ghost items = json_list(arr@);
                proof {
                    lemma_json_list(arr@);
                }
                buf.append("[");
                for i in 0..arr.len()
                    invariant
                        *self == JsonValue::Array(*arr),
                        items == json_list(arr@),
                        items.len() == arr@.len(),
                        forall|k: int| 0 <= k < arr@.len() ==> #[trigger] items[k] == json_of(arr@[k]),
                        buf@ == start + seq!['['] + compact_elements(items.take(i as int)),
                {
                    proof {
                        lemma_compact_elements_snoc(items, i as int);
                    }
                    let ghost before = buf@;
                    if i > 0 {
                        buf.append(",");
                    }
                    proof {
                        reveal_strlit(",");
                        assert(decreases_to!(*self => (*self)->Array_0));
                        assert(decreases_to!(*arr => arr@));
                        assert(decreases_to!(arr@ => arr@[i as int]));
                    }
                    arr[i].serialize(buf);
                    assert(buf@ =~= start + seq!['['] + compact_elements(items.take(i + 1)));
                }
                assert(items.take(arr@.len() as int) =~= items);
                buf.append("]");
            },
            JsonValue::Object(obj) => {
                let ghost start = buf@;
                let ghost m = json_members(obj@);
                proof {
                    lemma_json_members(obj@);
                }
                buf.append("{");
                for i in 0..obj.len()
                    invariant
                        *self == JsonValue::Object(*obj),
                        m == json_members(obj@),
                        m.len() == obj@.len(),
                        forall|k: int|
                            0 <= k < obj@.len() ==> #[trigger] m[k] == (obj@[k].0@, json_of(obj@[k].1)),
                        buf@ == start + seq!['{'] + compact_members(m.take(i as int)),
                {
                    proof {
                        lemma_compact_members_snoc(m, i as int);
                    }
                    if i > 0 {
                        buf.append(",");
                    }
                    let (key, val) = &obj[i];
                    buf.append("\"");
                    buf.append(key);
                    buf.append("\":");
                    proof {
                        reveal_strlit(",");
                        reveal_strlit("\"");
                        reveal_strlit("\":");
                        assert(decreases_to!(*self => (*self)->Object_0));
                        assert(decreases_to!(*obj => obj@));
                        assert(decreases_to!(obj@ => obj@[i as int]));
                        assert(decreases_to!(obj@[i as int] => obj@[i as int].1));
                    }
                    val.serialize(buf);
                    assert(buf@ =~= start + seq!['{'] + compact_members(m.take(i + 1)));
                }
                assert(m.take(obj@.len() as int) =~= m);
                buf.append("}");
            },
        }
    }

    /// Compact JSON text, built by joining the texts of the parts.
    pub fn stringify(&self) -> (text: String)
        ensures
            text@ == compact(self@),
        decreases self,
    {
        proof {
            reveal_strlit("\"");
            reveal_strlit("[");
            reveal_strlit("]");
            reveal_strlit("{");
            reveal_strlit("}");
            reveal_strlit("\":");
        }
        match self {
            JsonValue::Null => "null".to_string(),
            JsonValue::Boolean(b) => {
                if *b {
                    "true".to_string()
                } else {
                    "false".to_string()
                }
            },
            JsonValue::Number(n) => n.clone(),
            JsonValue::String(s) => {
                let mut text = "\"".to_string();
                text.append(s);
                text.append("\"");
                text
            },
            JsonValue::Array(arr) => {
                let ghost items = json_list(arr@);
                proof {
                    lemma_json_list(arr@);
                }
                let mut elements: Vec<String> = Vec::new();
                for i in 0..arr.len()
                    invariant
                        *self == JsonValue::Array(*arr),
                        items == json_list(arr@),
                        items.len() == arr@.len(),
                        forall|k: int| 0 <= k < arr@.len() ==> #[trigger] items[k] == json_of(arr@[k]),
                        elements@.len() == i,
                        forall|k: int| 0 <= k < i ==> #[trigger] elements@[k]@ == compact(items[k]),
                {
                    proof {
                        assert(decreases_to!(*self => (*self)->Array_0));
                        assert(decreases_to!(*arr => arr@));
                        assert(decreases_to!(arr@ => arr@[i as int]));
                    }
                    let text = arr[i].stringify();
                    elements.push(text);
                }
                assert(elements@.map_values(|p: String| p@) =~= items.map_values(|j: Json| compact(j)));
                let joined = join_with_commas(&elements);
                proof {
                    lemma_compact_elements_join(items);
                }
                let mut text = "[".to_string();
                text.append(joined.as_str());
                text.append("]");
                text
            },
            JsonValue::Object(obj) => {
                let ghost m = json_members(obj@);
                proof {
                    lemma_json_members(obj@);
                }
                let mut pairs: Vec<String> = Vec::new();
                for i in 0..obj.len()
                    invariant
                        *self == JsonValue::Object(*obj),
                        m == json_members(obj@),
                        m.len() == obj@.len(),
                        forall|k: int|
                            0 <= k < obj@.len() ==> #[trigger] m[k] == (obj@[k].0@, json_of(obj@[k].1)),
                        pairs@.len() == i,
                        forall|k: int| 0 <= k < i ==> #[trigger] pairs@[k]@ == compact_member(m[k].0, m[k].1),
                {
                    proof {
                        reveal_strlit("\"");
                        reveal_strlit("\":");
                        assert(decreases_to!(*self => (*self)->Object_0));
                        assert(decreases_to!(*obj => obj@));
                        assert(decreases_to!(obj@ => obj@[i as int]));
                        assert(decreases_to!(obj@[i as int] => obj@[i as int].1));
                    }
                    let (key, val) = &obj[i];
                    let mut pair = "\"".to_string();
                    pair.append(key);
                    pair.append("\":");
                    let text = val.stringify();
                    pair.append(text.as_str());
                    pairs.push(pair);
                    assert(pair@ =~= compact_member(m[i as int].0, m[i as int].1));
                }
                assert(pairs@.map_values(|p: String| p@) =~= m.map_values(
                    |kv: (Seq<char>, Json)| compact_member(kv.0, kv.1),
                ));
                let joined = join_with_commas(&pairs);
                proof {
                    lemma_compact_members_join(m);
                }
                let mut text = "{".to_string();
                text.append(joined.as_str());
                text.append("}");
                text
            },
        }
    }

    /// Indented JSON text: two spaces per level, one element or member per
    /// line.
    pub fn to_pretty_string(&self) -> (text: String)
        requires
            nesting(self@) < usize::MAX,
        ensures
            text@ == pretty(self@, 0),
    {
        let mut buf = String::new();
        self.serialize_pretty(&mut buf, 0);
        buf
    }

    /// Append the indented text of this value, at nesting level `depth`.
    pub fn serialize_pretty(&self, buf: &mut String, depth: usize)
        requires
            depth + nesting(self@) < usize::MAX,
        ensures
            final(buf)@ == old(buf)@ + pretty(self@, depth as nat),
        decreases self,
    {
        let indent = indentation(depth);
        let child_indent = indentation(depth + 1);
        proof {
            reveal_strlit("\"");
            reveal_strlit("]");
            reveal_strlit("}");
        }
        match self {
            JsonValue::Null => buf.append("null"),
            JsonValue::Boolean(b) => {
                if *b {
                    buf.append("true")
                } else {
                    buf.append("false")
                }
            },
            JsonValue::Number(n) => buf.append(n.as_str()),
            JsonValue::String(s) => {
                buf.append("\"");
                buf.append(s);
                buf.append("\"");
            },
            JsonValue::Array(arr) => {
                if arr.len() == 0 {
                    buf.append("[]");
                } else {
                    let ghost start = buf@;
                    let ghost items = json_list(arr@);
                    let ghost d = (depth + 1) as nat;
                    proof {
                        lemma_json_list(arr@);
                        lemma_nesting_elements(items);
                    }
                    buf.append("[\n");
                    for i in 0..arr.len()
                        invariant
                            *self == JsonValue::Array(*arr),
                            depth + nesting(self@) < usize::MAX,
                            d == depth + 1,
                            child_indent@ == super::spec::indent(d),
                            items == json_list(arr@),
                            items.len() == arr@.len(),
                            forall|k: int| 0 <= k < arr@.len() ==> #[trigger] items[k] == json_of(arr@[k]),
                            forall|k: int| 0 <= k < items.len() ==> nesting(#[trigger] items[k]) <= nesting_elements(items),
                            buf@ == start + "[\n"@ + pretty_elements(items.take(i as int), d),
                    {
                        proof {
                            lemma_pretty_elements_snoc(items, d, i as int);
                            assert(decreases_to!(*self => (*self)->Array_0));
                            assert(decreases_to!(*arr => arr@));
                            assert(decreases_to!(arr@ => arr@[i as int]));
                            assert(nesting(items[i as int]) <= nesting_elements(items));
                        }
                        if i > 0 {
                            buf.append(",\n");
                        }
                        buf.append(child_indent.as_str());
                        arr[i].serialize_pretty(buf, depth + 1);
                        assert(buf@ =~= start + "[\n"@ + pretty_elements(items.take(i + 1), d));
                    }
                    assert(items.take(arr@.len() as int) =~= items);
                    buf.append("\n");
                    buf.append(indent.as_str());
                    buf.append("]");
                }
            },
            JsonValue::Object(obj) => {
                if obj.len() == 0 {
                    buf.append("{}");
                } else {
                    let ghost start = buf@;
                    let ghost m = json_members(obj@);
                    let ghost d = (depth + 1) as nat;
                    proof {
                        lemma_json_members(obj@);
                        lemma_nesting_members(m);
                    }
                    buf.append("{\n");
                    for i in 0..obj.len()
                        invariant
                            *self == JsonValue::Object(*obj),
                            depth + nesting(self@) < usize::MAX,
                            d == depth + 1,
                            child_indent@ == super::spec::indent(d),
                            m == json_members(obj@),
                            m.len() == obj@.len(),
                            forall|k: int|
                                0 <= k < obj@.len() ==> #[trigger] m[k] == (obj@[k].0@, json_of(obj@[k].1)),
                            forall|k: int| 0 <= k < m.len() ==> nesting(#[trigger] m[k].1) <= nesting_members(m),
                            buf@ == start + "{\n"@ + pretty_members(m.take(i as int), d),
                    {
                        proof {
                            reveal_strlit("\"");
                            reveal_strlit("\": ");
                            reveal_strlit(": ");
                            lemma_pretty_members_snoc(m, d, i as int);
                            assert(decreases_to!(*self => (*self)->Object_0));
                            assert(decreases_to!(*obj => obj@));
                            assert(decreases_to!(obj@ => obj@[i as int]));
                            assert(decreases_to!(obj@[i as int] => obj@[i as int].1));
                            assert(nesting(m[i as int].1) <= nesting_members(m));
                        }
                        if i > 0 {
                            buf.append(",\n");
                        }
                        let (key, val) = &obj[i];
                        buf.append(child_indent.as_str());
                        buf.append("\"");
                        buf.append(key);
                        buf.append("\": ");
                        val.serialize_pretty(buf, depth + 1);
                        assert(buf@ =~= start + "{\n"@ + pretty_members(m.take(i + 1), d));
                    }
                    assert(m.take(obj@.len() as int) =~= m);
                    buf.append("\n");
                    buf.append(indent.as_str());
                    buf.append("}");
                }
            },
        }
    }
}

} // verus!
