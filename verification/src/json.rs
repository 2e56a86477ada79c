//! JSON values as the library reads them: plain data, with the outside parser
//! behind a few wrappers.
use crate::hash::hex_char;
use crate::subset::array_of;
use crate::text::{decimal, decimal_of_u64, join, same_text};
use crate::units::{elements, span_bytes};
use vstd::prelude::*;
use vstd::std_specs::cmp::PartialEqSpecImpl;
use vstd::utf8::encode_utf8;

verus! {

// ---------------------------------------------------------------------------
// The model
// ---------------------------------------------------------------------------

/// A JSON value. A number is the text that serde_json gives for it; the fields of
/// an object stand in the order of the input.
pub enum Tree {
    Null,
    Bool(bool),
    Number(Seq<char>),
    Text(Seq<char>),
    Array(Seq<Tree>),
    Object(Seq<(Seq<char>, Tree)>),
}

/// The value of the field `name`, if there is one.
pub open spec fn field_of(fields: Seq<(Seq<char>, Tree)>, name: Seq<char>) -> Option<Tree>
    decreases fields.len(),
{
    if fields.len() == 0 {
        None
    } else if fields[0].0 == name {
        Some(fields[0].1)
    } else {
        field_of(fields.skip(1), name)
    }
}

impl Tree {
    /// The field `name` of an object; nothing of any other value.
    pub open spec fn get(self, name: Seq<char>) -> Option<Tree> {
        match self {
            Tree::Object(fields) => field_of(fields, name),
            _ => None,
        }
    }

    /// The text of a string.
    pub open spec fn string(self) -> Option<Seq<char>> {
        match self {
            Tree::Text(s) => Some(s),
            _ => None,
        }
    }

    /// The bits of a number that is a finite double.
    pub open spec fn double(self) -> Option<u64> {
        match self {
            Tree::Number(text) => number_double(text),
            _ => None,
        }
    }

    /// The decimal text of a number that is a finite double, as a double is
    /// printed.
    pub open spec fn printed(self) -> Seq<char> {
        match self {
            Tree::Number(text) => match number_double(text) {
                Some(bits) => double_text(bits),
                None => Seq::empty(),
            },
            _ => Seq::empty(),
        }
    }
}

/// The order of finite doubles, read off their bits: the magnitude, negated
/// where the sign bit is set. Both zeros have rank 0.
pub open spec fn rank(bits: u64) -> int {
    if bits < 0x8000_0000_0000_0000 {
        bits as int
    } else {
        0x8000_0000_0000_0000 - bits
    }
}

/// The two values are the same: arrays element by element, objects field by
/// field whatever the order, numbers by their text.
pub open spec fn same_tree(a: Tree, b: Tree) -> bool
    decreases a,
{
    match (a, b) {
        (Tree::Null, Tree::Null) => true,
        (Tree::Bool(x), Tree::Bool(y)) => x == y,
        (Tree::Number(x), Tree::Number(y)) => x == y,
        (Tree::Text(x), Tree::Text(y)) => x == y,
        (Tree::Array(x), Tree::Array(y)) => x.len() == y.len() && forall|i: int|
            0 <= i < x.len() ==> same_tree(#[trigger] x[i], y[i]),
        (Tree::Object(x), Tree::Object(y)) => x.len() == y.len() && forall|i: int|
            0 <= i < x.len() ==> match field_of(y, (#[trigger] x[i]).0) {
                Some(v) => same_tree(x[i].1, v),
                None => false,
            },
        _ => false,
    }
}

/// The compact JSON text of a value.
pub open spec fn compact(t: Tree) -> Seq<char>
    decreases t, 0nat,
{
    match t {
        Tree::Null => "null"@,
        Tree::Bool(b) => if b {
            "true"@
        } else {
            "false"@
        },
        Tree::Number(text) => text,
        Tree::Text(s) => json_string(s),
        Tree::Array(items) => "["@ + compact_items(items, items.len()) + "]"@,
        Tree::Object(fields) => "{"@ + compact_fields(fields, fields.len()) + "}"@,
    }
}

/// The first `n` items, with commas between them.
pub open spec fn compact_items(items: Seq<Tree>, n: nat) -> Seq<char>
    decreases items, n,
{
    if n == 0 || n > items.len() {
        Seq::empty()
    } else {
        let before = compact_items(items, (n - 1) as nat);
        (if n == 1 {
            before
        } else {
            before + ","@
        }) + compact(items[n - 1])
    }
}

/// The first `n` fields, with commas between them.
pub open spec fn compact_fields(fields: Seq<(Seq<char>, Tree)>, n: nat) -> Seq<char>
    decreases fields, n,
{
    if n == 0 || n > fields.len() {
        Seq::empty()
    } else {
        let before = compact_fields(fields, (n - 1) as nat);
        (if n == 1 {
            before
        } else {
            before + ","@
        }) + json_string(fields[n - 1].0) + ":"@ + compact(fields[n - 1].1)
    }
}

// ---------------------------------------------------------------------------
// The outside parser
// ---------------------------------------------------------------------------

/// `serde_json::Value`, as an opaque value.
#[verifier::external_type_specification]
#[verifier::external_body]
pub struct ExValue(serde_json::Value);

/// What a `serde_json::Value` holds.
pub uninterp spec fn value_tree(value: serde_json::Value) -> Tree;

/// What `serde_json::from_slice` gives for `bytes`: the document it reads, or
/// the text of its error.
pub uninterp spec fn json_result(bytes: Seq<u8>) -> Result<Tree, Seq<char>>;

/// The JSON document in `bytes`, if there is one.
pub open spec fn json_of_bytes(bytes: Seq<u8>) -> Option<Tree> {
    match json_result(bytes) {
        Ok(t) => Some(t),
        Err(_) => None,
    }
}

/// What `serde_json::to_string_pretty` gives for a document: its text over
/// several lines, or the text of the error.
pub uninterp spec fn pretty_json(t: Tree) -> Result<Seq<char>, Seq<char>>;

/// The bits of the double that `serde_json::Number::as_f64` gives for the number
/// written `text`.
pub uninterp spec fn number_double(text: Seq<char>) -> Option<u64>;

/// The text that `Display` gives for the double with these bits.
pub uninterp spec fn double_text(bits: u64) -> Seq<char>;

/// The outermost layer of a `serde_json::Value`.
pub enum Node {
    Null,
    Bool(bool),
    Number(String),
    Text(String),
    Array(Vec<serde_json::Value>),
    Object(Vec<(String, serde_json::Value)>),
}

/// What a layer holds.
pub open spec fn node_tree(node: Node) -> Tree {
    match node {
        Node::Null => Tree::Null,
        Node::Bool(b) => Tree::Bool(b),
        Node::Number(text) => Tree::Number(text@),
        Node::Text(s) => Tree::Text(s@),
        Node::Array(items) => Tree::Array(Seq::new(items@.len(), |i: int| value_tree(items@[i]))),
        Node::Object(fields) => Tree::Object(
            Seq::new(fields@.len(), |i: int| (fields@[i].0@, value_tree(fields@[i].1))),
        ),
    }
}

/// Takes a `serde_json::Value` apart by its variants; an object gives its
/// entries in the order of the map. Claims that the layer holds what the value
/// holds, which is what the name `value_tree` stands for.
#[verifier::external_body]
pub(crate) fn open_value(value: serde_json::Value) -> (node: Node)
    ensures
        node_tree(node) == value_tree(value),
{
    match value {
        serde_json::Value::Null => Node::Null,
        serde_json::Value::Bool(b) => Node::Bool(b),
        serde_json::Value::Number(number) => Node::Number(number.to_string()),
        serde_json::Value::String(s) => Node::Text(s),
        serde_json::Value::Array(items) => Node::Array(items),
        serde_json::Value::Object(fields) => Node::Object(fields.into_iter().collect()),
    }
}

/// The bytes of the elements of an array with the given numbers.
pub open spec fn chosen_parts(bytes: Seq<u8>, indices: Seq<usize>) -> Seq<Seq<u8>> {
    Seq::new(indices.len(), |k: int| span_bytes(bytes, elements(bytes)->0[indices[k] as int]))
}

/// Each element of the array `t` was read from its own bytes alone: the array of
/// some of them, in any order, is read as the array of what they were read as.
pub open spec fn read_apart(bytes: Seq<u8>, t: Tree) -> bool {
    t is Array && elements(bytes) is Some && elements(bytes)->0.len() == t->Array_0.len()
        ==> forall|indices: Seq<usize>|
        (forall|k: int| 0 <= k < indices.len() ==> (#[trigger] indices[k]) < t->Array_0.len())
            ==> json_result(array_of(#[trigger] chosen_parts(bytes, indices))) == Ok::<
            Tree,
            Seq<char>,
        >(Tree::Array(Seq::new(indices.len(), |k: int| t->Array_0[indices[k] as int])))
}

/// The array of the values is read back from its compact text.
pub open spec fn array_reads_back(items: Seq<Tree>) -> bool {
    json_result(encode_utf8(compact(Tree::Array(items)))) == Ok::<Tree, Seq<char>>(
        Tree::Array(items),
    )
}

/// The value has at most `n` arrays and objects inside each other.
pub open spec fn nests_within(t: Tree, n: nat) -> bool
    decreases t,
{
    match t {
        Tree::Array(items) => n > 0 && forall|i: int|
            0 <= i < items.len() ==> nests_within(#[trigger] items[i], (n - 1) as nat),
        Tree::Object(fields) => n > 0 && forall|i: int|
            0 <= i < fields.len() ==> nests_within((#[trigger] fields[i]).1, (n - 1) as nat),
        _ => true,
    }
}

/// What was read is read back when it is written: the elements of an array `t`
/// behind any values that are read back themselves, and `t` as an element of
/// its own, if that does not nest deeper than 127 arrays and objects, which is
/// as deep as is read.
pub open spec fn reads_back(t: Tree) -> bool {
    &&& t is Array ==> forall|others: Seq<Tree>|
        others.len() == 0 || array_reads_back(others) ==> array_reads_back(
            #[trigger] others.add(t->Array_0),
        )
    &&& nests_within(t, 126) ==> forall|others: Seq<Tree>|
        others.len() == 0 || array_reads_back(others) ==> array_reads_back(
            #[trigger] others.push(t),
        )
}

/// Calls `serde_json::from_slice`. Claims that whether it reads a document, and
/// which, or with which error it fails, is a function of the bytes alone, named
/// `json_result`; that it reads the elements of an array one by one, each from
/// its own bytes, whatever stands beside it; and that what it has read it reads
/// again from its compact text, alone or among other values, as deep as it reads
/// at all.
#[verifier::external_body]
pub(crate) fn parse_value(bytes: &[u8]) -> (value: Result<serde_json::Value, String>)
    ensures
        match value {
            Ok(v) => {
                &&& json_result(bytes@) == Ok::<Tree, Seq<char>>(value_tree(v))
                &&& read_apart(bytes@, value_tree(v))
                &&& reads_back(value_tree(v))
            },
            Err(e) => json_result(bytes@) == Err::<Tree, Seq<char>>(e@),
        },
{
    match serde_json::from_slice::<serde_json::Value>(bytes) {
        Ok(value) => Ok(value),
        Err(error) => Err(error.to_string()),
    }
}

/// What a list of values holds.
pub open spec fn value_trees(values: Seq<serde_json::Value>) -> Seq<Tree> {
    Seq::new(values.len(), |i: int| value_tree(values[i]))
}

/// Calls `serde_json::Value::from` on a list of values. Claims that the value is
/// the array of them.
#[verifier::external_body]
pub(crate) fn array_value(values: Vec<serde_json::Value>) -> (value: serde_json::Value)
    ensures
        value_tree(value) == Tree::Array(value_trees(values@)),
{
    serde_json::Value::from(values)
}

/// Calls `serde_json::to_string_pretty`. Claims that its outcome is a function
/// of what the value holds, named `pretty_json`.
#[verifier::external_body]
pub(crate) fn pretty_value(value: &serde_json::Value) -> (out: Result<String, String>)
    ensures
        match out {
            Ok(s) => pretty_json(value_tree(*value)) == Ok::<Seq<char>, Seq<char>>(s@),
            Err(e) => pretty_json(value_tree(*value)) == Err::<Seq<char>, Seq<char>>(e@),
        },
{
    match serde_json::to_string_pretty(value) {
        Ok(text) => Ok(text),
        Err(error) => Err(error.to_string()),
    }
}

/// Calls `serde_json::Number::as_f64` on the number written `text`. Claims that
/// the bits of the double are a function of the number's text alone, named
/// `number_double`.
#[verifier::external_body]
pub(crate) fn number_bits(text: &str) -> (bits: Option<u64>)
    ensures
        bits == number_double(text@),
{
    let number: serde_json::Number = serde_json::from_str(text).ok()?;
    number.as_f64().map(|x| x.to_bits())
}

/// Writes the double that the number written `text` stands for with its `Display`.
/// Claims that what is written is a function of the double's bits alone, named
/// `double_text`.
#[verifier::external_body]
pub(crate) fn number_shown(text: &str) -> (shown: Option<String>)
    ensures
        match shown {
            Some(s) => number_double(text@) is Some && s@ == double_text(number_double(text@)->0),
            None => number_double(text@) is None,
        },
{
    let number: serde_json::Number = serde_json::from_str(text).ok()?;
    number.as_f64().map(|x| x.to_string())
}

/// A character as it stands in a JSON string: with a backslash, where it is a
/// quote, a backslash or a control character.
pub open spec fn escaped(c: char) -> Seq<char> {
    if c == '"' || c == '\\' {
        seq!['\\', c]
    } else if c == '\u{8}' {
        seq!['\\', 'b']
    } else if c == '\t' {
        seq!['\\', 't']
    } else if c == '\n' {
        seq!['\\', 'n']
    } else if c == '\u{c}' {
        seq!['\\', 'f']
    } else if c == '\r' {
        seq!['\\', 'r']
    } else if (c as u32) < 0x20 {
        seq!['\\', 'u', '0', '0', hex_char(c as nat / 16), hex_char(c as nat % 16)]
    } else {
        seq![c]
    }
}

/// The characters of a text as they stand in a JSON string.
pub open spec fn escaped_text(s: Seq<char>) -> Seq<char>
    decreases s.len(),
{
    if s.len() == 0 {
        Seq::empty()
    } else {
        escaped_text(s.drop_last()) + escaped(s.last())
    }
}

/// The JSON string literal of a text.
pub open spec fn json_string(s: Seq<char>) -> Seq<char> {
    "\""@ + escaped_text(s) + "\""@
}

/// No character of `s` needs an escape in a JSON string.
pub open spec fn plain(s: Seq<char>) -> bool {
    forall|i: int|
        0 <= i < s.len() ==> (#[trigger] s[i]) as u32 >= 0x20 && s[i] != '"' && s[i] != '\\'
}

/// A text without quotes, backslashes and control characters is only put in
/// quotes.
pub proof fn law_plain_text_is_only_quoted(s: Seq<char>)
    requires
        plain(s),
    ensures
        json_string(s) == "\""@ + s + "\""@,
{
    lemma_plain(s);
}

proof fn lemma_plain(s: Seq<char>)
    requires
        plain(s),
    ensures
        escaped_text(s) == s,
    decreases s.len(),
{
    if s.len() > 0 {
        let before = s.drop_last();
        assert(forall|i: int| 0 <= i < before.len() ==> #[trigger] before[i] == s[i]);
        lemma_plain(before);
        let c = s[s.len() - 1];
        assert(escaped(c) == seq![c]);
        assert(before + seq![c] =~= s);
    }
}

/// Writes a text as a JSON string with `serde_json::Value::to_string`. Claims
/// that the literal is the text's characters in quotes, with a quote, a backslash
/// and a control character escaped, the last by its letter where it has one, else
/// by its number in four hex digits.
#[verifier::external_body]
fn string_literal(s: &str) -> (out: String)
    ensures
        out@ == json_string(s@),
{
    serde_json::Value::String(s.to_owned()).to_string()
}

// ---------------------------------------------------------------------------
// The library's own values
// ---------------------------------------------------------------------------

/// A JSON value.
#[derive(Debug)]
pub enum Json {
    /// `null`.
    Null,
    /// `true` or `false`.
    Bool(bool),
    /// A number, by its text.
    Number(String),
    /// A string.
    Text(String),
    /// An array.
    Array(Vec<Json>),
    /// An object, its fields in the order of the input.
    Object(Vec<(String, Json)>),
}

impl View for Json {
    type V = Tree;

    open spec fn view(&self) -> Tree
        decreases self,
    {
        match *self {
            Json::Null => Tree::Null,
            Json::Bool(b) => Tree::Bool(b),
            Json::Number(text) => Tree::Number(text@),
            Json::Text(s) => Tree::Text(s@),
            Json::Array(items) => Tree::Array(trees(items@)),
            Json::Object(fields) => Tree::Object(field_trees(fields@)),
        }
    }
}

/// The values of a list.
pub open spec fn trees(items: Seq<Json>) -> Seq<Tree>
    decreases items,
{
    Seq::new(
        items.len(),
        |i: int|
            if 0 <= i < items.len() {
                items[i]@
            } else {
                Tree::Null
            },
    )
}

/// The fields of a list.
pub open spec fn field_trees(fields: Seq<(String, Json)>) -> Seq<(Seq<char>, Tree)>
    decreases fields,
{
    Seq::new(
        fields.len(),
        |i: int|
            if 0 <= i < fields.len() {
                (fields[i].0@, fields[i].1@)
            } else {
                (Seq::empty(), Tree::Null)
            },
    )
}

/// The library's own form of an outside value.
fn json_of(value: serde_json::Value) -> (json: Json)
    ensures
        json@ == value_tree(value),
    decreases value_tree(value),
{
    let ghost tree = value_tree(value);
    match open_value(value) {
        Node::Null => Json::Null,
        Node::Bool(b) => Json::Bool(b),
        Node::Number(text) => Json::Number(text),
        Node::Text(s) => Json::Text(s),
        Node::Array(items) => {
            let mut out: Vec<Json> = Vec::new();
            let ghost all = items@;
            let ghost inner = Seq::new(all.len(), |i: int| value_tree(all[i]));
            assert(tree->Array_0 == inner);
            for item in it: items
                invariant
                    it.seq() == all,
                    tree == value_tree(value),
                    tree is Array,
                    tree->Array_0 == inner,
                    inner == Seq::new(all.len(), |i: int| value_tree(all[i])),
                    trees(out@) =~= inner.take(it.index() as int),
            {
                proof {
                    let k = it.index() as int;
                    assert(inner[k] == value_tree(item));
                    assert(decreases_to!(tree => tree->Array_0));
                    assert(decreases_to!(inner => inner[k]));
                }
                let ghost before = out@;
                out.push(json_of(item));
                assert(trees(out@) =~= trees(before).push(value_tree(item)));
            }
            assert(trees(out@) =~= inner);
            Json::Array(out)
        },
        Node::Object(fields) => {
            let mut out: Vec<(String, Json)> = Vec::new();
            let ghost all = fields@;
            let ghost inner = Seq::new(all.len(), |i: int| (all[i].0@, value_tree(all[i].1)));
            assert(tree->Object_0 == inner);
            for field in it: fields
                invariant
                    it.seq() == all,
                    tree == value_tree(value),
                    tree is Object,
                    tree->Object_0 == inner,
                    inner == Seq::new(all.len(), |i: int| (all[i].0@, value_tree(all[i].1))),
                    field_trees(out@) =~= inner.take(it.index() as int),
            {
                proof {
                    let k = it.index() as int;
                    assert(inner[k] == (field.0@, value_tree(field.1)));
                    assert(decreases_to!(tree => tree->Object_0));
                    assert(decreases_to!(inner => inner[k]));
                    assert(decreases_to!(inner[k] => inner[k].1));
                }
                let ghost before = out@;
                let ghost entry = (field.0@, value_tree(field.1));
                let value = json_of(field.1);
                out.push((field.0, value));
                assert(field_trees(out@) =~= field_trees(before).push(entry));
            }
            assert(field_trees(out@) =~= inner);
            Json::Object(out)
        },
    }
}

impl Json {
    /// The JSON document in `bytes`, if there is one.
    pub fn parse(bytes: &[u8]) -> (json: Option<Json>)
        ensures
            match json {
                Some(j) => json_of_bytes(bytes@) == Some(j@) && read_apart(bytes@, j@)
                    && reads_back(j@),
                None => json_of_bytes(bytes@) is None,
            },
    {
        match parse_value(bytes) {
            Ok(value) => Some(json_of(value)),
            Err(_) => None,
        }
    }

    /// The number `n`.
    pub fn number(n: i64) -> (json: Json)
        ensures
            json@ == Tree::Number(
                if n < 0 {
                    "-"@ + decimal((-n) as nat)
                } else {
                    decimal(n as nat)
                },
            ),
    {
        if n < 0 {
            let size: u64 = if n == i64::MIN {
                0x8000_0000_0000_0000
            } else {
                (-n) as u64
            };
            Json::Number("-".to_owned().concat(decimal_of_u64(size).as_str()))
        } else {
            Json::Number(decimal_of_u64(n as u64))
        }
    }

    /// The string `s`.
    pub fn text(s: &str) -> (json: Json)
        ensures
            json@ == Tree::Text(s@),
    {
        Json::Text(s.to_owned())
    }

    /// The items of an array.
    pub fn as_array(&self) -> (items: Option<&Vec<Json>>)
        ensures
            match items {
                Some(v) => *self == Json::Array(*v) && self@ == Tree::Array(trees(v@)),
                None => !(self@ is Array),
            },
    {
        match self {
            Json::Array(items) => Some(items),
            _ => None,
        }
    }

    /// The items of an array.
    pub fn into_array(self) -> (items: Option<Vec<Json>>)
        ensures
            match items {
                Some(v) => self@ == Tree::Array(trees(v@)),
                None => !(self@ is Array),
            },
    {
        match self {
            Json::Array(items) => Some(items),
            _ => None,
        }
    }

    /// The fields of an object.
    pub fn as_object(&self) -> (fields: Option<&Vec<(String, Json)>>)
        ensures
            match fields {
                Some(v) => *self == Json::Object(*v) && self@ == Tree::Object(field_trees(v@)),
                None => !(self@ is Object),
            },
    {
        match self {
            Json::Object(fields) => Some(fields),
            _ => None,
        }
    }

    /// The text of a string.
    pub fn as_str(&self) -> (s: Option<&str>)
        ensures
            match s {
                Some(v) => self@.string() == Some(v@),
                None => self@.string() is None,
            },
    {
        match self {
            Json::Text(s) => Some(s.as_str()),
            _ => None,
        }
    }

    /// The bits of a number that is a finite double.
    pub fn double(&self) -> (bits: Option<u64>)
        ensures
            bits == self@.double(),
    {
        match self {
            Json::Number(text) => number_bits(text.as_str()),
            _ => None,
        }
    }

    /// A number that is a finite double, as a double is printed; nothing for
    /// any other value.
    pub fn printed(&self) -> (s: String)
        ensures
            s@ == self@.printed(),
    {
        match self {
            Json::Number(text) => match number_shown(text.as_str()) {
                Some(shown) => shown,
                None => String::new(),
            },
            _ => String::new(),
        }
    }

    /// The field `name` of an object.
    pub fn get(&self, name: &str) -> (value: Option<&Json>)
        ensures
            match value {
                Some(v) => self@.get(name@) == Some(v@),
                None => self@.get(name@) is None,
            },
    {
        match self {
            Json::Object(fields) => {
                let mut i: usize = 0;
                let ghost all = field_trees(fields@);
                assert(all.skip(0) =~= all);
                while i < fields.len()
                    invariant
                        i <= fields@.len(),
                        *self == Json::Object(*fields),
                        all == field_trees(fields@),
                        field_of(all, name@) == field_of(all.skip(i as int), name@),
                    decreases fields@.len() - i,
                {
                    assert(all.skip(i as int)[0] == (fields@[i as int].0@, fields@[i as int].1@));
                    assert(all.skip(i as int).skip(1) =~= all.skip(i as int + 1));
                    if same_text(fields[i].0.as_str(), name) {
                        return Some(&fields[i].1);
                    }
                    i += 1;
                }
                None
            },
            _ => None,
        }
    }

    /// Whether the two values are the same.
    pub fn same(&self, other: &Json) -> (r: bool)
        ensures
            r == same_tree(self@, other@),
        decreases self,
    {
        match (self, other) {
            (Json::Null, Json::Null) => true,
            (Json::Bool(x), Json::Bool(y)) => *x == *y,
            (Json::Number(x), Json::Number(y)) => same_text(x.as_str(), y.as_str()),
            (Json::Text(x), Json::Text(y)) => same_text(x.as_str(), y.as_str()),
            (Json::Array(x), Json::Array(y)) => {
                if x.len() != y.len() {
                    return false;
                }
                let mut i: usize = 0;
                while i < x.len()
                    invariant
                        i <= x@.len() == y@.len(),
                        *self == Json::Array(*x),
                        self@ == Tree::Array(trees(x@)),
                        other@ == Tree::Array(trees(y@)),
                        forall|k: int|
                            0 <= k < i ==> same_tree(#[trigger] trees(x@)[k], trees(y@)[k]),
                    decreases x@.len() - i,
                {
                    assert(trees(x@)[i as int] == x@[i as int]@);
                    if !x[i].same(&y[i]) {
                        return false;
                    }
                    i += 1;
                }
                true
            },
            (Json::Object(x), Json::Object(y)) => {
                if x.len() != y.len() {
                    return false;
                }
                let mut i: usize = 0;
                while i < x.len()
                    invariant
                        i <= x@.len() == y@.len(),
                        *self == Json::Object(*x),
                        self@ == Tree::Object(field_trees(x@)),
                        other@ == Tree::Object(field_trees(y@)),
                        forall|k: int|
                            0 <= k < i ==> match field_of(
                                field_trees(y@),
                                (#[trigger] field_trees(x@)[k]).0,
                            ) {
                                Some(v) => same_tree(field_trees(x@)[k].1, v),
                                None => false,
                            },
                    decreases x@.len() - i,
                {
                    assert(field_trees(x@)[i as int] == (x@[i as int].0@, x@[i as int].1@));
                    match other.get(x[i].0.as_str()) {
                        None => {
                            return false;
                        },
                        Some(v) => {
                            if !x[i].1.same(v) {
                                return false;
                            }
                        },
                    }
                    i += 1;
                }
                true
            },
            _ => false,
        }
    }

    /// A copy of the value.
    pub fn copy(&self) -> (json: Json)
        ensures
            json@ == self@,
        decreases self,
    {
        match self {
            Json::Null => Json::Null,
            Json::Bool(b) => Json::Bool(*b),
            Json::Number(text) => Json::Number(text.clone()),
            Json::Text(s) => Json::Text(s.clone()),
            Json::Array(items) => {
                let mut out: Vec<Json> = Vec::new();
                let mut i: usize = 0;
                while i < items.len()
                    invariant
                        i <= items@.len(),
                        *self == Json::Array(*items),
                        trees(out@) =~= trees(items@).take(i as int),
                    decreases items@.len() - i,
                {
                    let ghost before = out@;
                    assert(decreases_to!(*self => self->Array_0));
                    assert(decreases_to!(items@ => items@[i as int]));
                    out.push(items[i].copy());
                    assert(trees(out@) =~= trees(before).push(items@[i as int]@));
                    i += 1;
                }
                assert(trees(out@) =~= trees(items@));
                Json::Array(out)
            },
            Json::Object(fields) => {
                let mut out: Vec<(String, Json)> = Vec::new();
                let mut i: usize = 0;
                while i < fields.len()
                    invariant
                        i <= fields@.len(),
                        *self == Json::Object(*fields),
                        field_trees(out@) =~= field_trees(fields@).take(i as int),
                    decreases fields@.len() - i,
                {
                    let ghost before = out@;
                    assert(decreases_to!(*self => self->Object_0));
                    assert(decreases_to!(fields@ => fields@[i as int]));
                    assert(decreases_to!(fields@[i as int] => fields@[i as int].1));
                    out.push((fields[i].0.clone(), fields[i].1.copy()));
                    assert(field_trees(out@) =~= field_trees(before).push(
                        field_trees(fields@)[i as int],
                    ));
                    i += 1;
                }
                assert(field_trees(out@) =~= field_trees(fields@));
                Json::Object(out)
            },
        }
    }

    /// The compact JSON text of the value.
    pub fn compact(&self) -> (out: String)
        ensures
            out@ == compact(self@),
        decreases self,
    {
        match self {
            Json::Null => "null".to_owned(),
            Json::Bool(b) => if *b {
                "true".to_owned()
            } else {
                "false".to_owned()
            },
            Json::Number(text) => text.clone(),
            Json::Text(s) => canonical_string_text(s.as_str()),
            Json::Array(items) => {
                let mut out = "[".to_owned();
                let mut i: usize = 0;
                assert(out@ =~= "["@ + compact_items(trees(items@), 0));
                while i < items.len()
                    invariant
                        i <= items@.len(),
                        *self == Json::Array(*items),
                        out@ == "["@ + compact_items(trees(items@), i as nat),
                    decreases items@.len() - i,
                {
                    if i > 0 {
                        out.append(",");
                    }
                    assert(trees(items@)[i as int] == items@[i as int]@);
                    assert(decreases_to!(*self => self->Array_0));
                    assert(decreases_to!(items@ => items@[i as int]));
                    out.append(items[i].compact().as_str());
                    i += 1;
                    assert(out@ =~= "["@ + compact_items(trees(items@), i as nat));
                }
                out.append("]");
                out
            },
            Json::Object(fields) => {
                let mut out = "{".to_owned();
                let mut i: usize = 0;
                assert(out@ =~= "{"@ + compact_fields(field_trees(fields@), 0));
                while i < fields.len()
                    invariant
                        i <= fields@.len(),
                        *self == Json::Object(*fields),
                        out@ == "{"@ + compact_fields(field_trees(fields@), i as nat),
                    decreases fields@.len() - i,
                {
                    if i > 0 {
                        out.append(",");
                    }
                    assert(field_trees(fields@)[i as int] == (
                        fields@[i as int].0@,
                        fields@[i as int].1@,
                    ));
                    assert(decreases_to!(*self => self->Object_0));
                    assert(decreases_to!(fields@ => fields@[i as int]));
                    assert(decreases_to!(fields@[i as int] => fields@[i as int].1));
                    out.append(canonical_string_text(fields[i].0.as_str()).as_str());
                    out.append(":");
                    out.append(fields[i].1.compact().as_str());
                    i += 1;
                    assert(out@ =~= "{"@ + compact_fields(field_trees(fields@), i as nat));
                }
                out.append("}");
                out
            },
        }
    }
}

impl PartialEq for Json {
    fn eq(&self, other: &Self) -> (r: bool) {
        self.same(other)
    }
}

impl PartialEqSpecImpl for Json {
    open spec fn obeys_eq_spec() -> bool {
        true
    }

    open spec fn eq_spec(&self, other: &Self) -> bool {
        same_tree(self@, other@)
    }
}

/// The JSON string literal of `s`: its own characters in quotes where none
/// needs an escape.
pub fn canonical_string_text(s: &str) -> (out: String)
    ensures
        out@ == json_string(s@),
        plain(s@) ==> out@ == "\""@ + s@ + "\""@,
{
    proof {
        if plain(s@) {
            law_plain_text_is_only_quoted(s@);
        }
    }
    string_literal(s)
}

// ---------------------------------------------------------------------------
// What holds of values
// ---------------------------------------------------------------------------

/// A field of an object is the first with its name; there is none where no field
/// has the name, and none in any other value.
pub proof fn law_field_lookup(t: Tree, name: Seq<char>, i: int)
    ensures
        !(t is Object) ==> t.get(name) is None,
        t is Object ==> (t.get(name) is None <==> forall|k: int|
            0 <= k < t->Object_0.len() ==> (#[trigger] t->Object_0[k]).0 != name),
        t is Object && 0 <= i < t->Object_0.len() && t->Object_0[i].0 == name && (forall|k: int|
            0 <= k < i ==> (#[trigger] t->Object_0[k]).0 != name) ==> t.get(name) == Some(
            t->Object_0[i].1,
        ),
{
    if t is Object {
        lemma_field_lookup(t->Object_0, name, i);
    }
}

proof fn lemma_field_lookup(fields: Seq<(Seq<char>, Tree)>, name: Seq<char>, i: int)
    ensures
        field_of(fields, name) is None <==> forall|k: int|
            0 <= k < fields.len() ==> (#[trigger] fields[k]).0 != name,
        0 <= i < fields.len() && fields[i].0 == name && (forall|k: int|
            0 <= k < i ==> (#[trigger] fields[k]).0 != name) ==> field_of(fields, name) == Some(
            fields[i].1,
        ),
    decreases fields.len(),
{
    if fields.len() > 0 && fields[0].0 != name {
        let rest = fields.skip(1);
        lemma_field_lookup(rest, name, i - 1);
        assert(forall|k: int| 0 < k < fields.len() ==> #[trigger] fields[k] == rest[k - 1]);
        if forall|k: int| 0 <= k < fields.len() ==> (#[trigger] fields[k]).0 != name {
            assert forall|k: int| 0 <= k < rest.len() implies (#[trigger] rest[k]).0 != name by {
                assert(fields[k + 1] == rest[k]);
            }
        }
        if 0 <= i < fields.len() && fields[i].0 == name && (forall|k: int|
            0 <= k < i ==> (#[trigger] fields[k]).0 != name) {
            assert forall|k: int| 0 <= k < i - 1 implies (#[trigger] rest[k]).0 != name by {
                assert(fields[k + 1] == rest[k]);
            }
        }
    }
}

/// Only a string has a text, only a number can be a double, and it is the double
/// that its own text stands for.
pub proof fn law_scalars(t: Tree, s: Seq<char>)
    ensures
        t.string() == Some(s) <==> t == Tree::Text(s),
        !(t is Number) ==> t.double() is None,
        Tree::Number(s).double() == number_double(s),
        number_double(s) is Some ==> Tree::Number(s).printed() == double_text(number_double(s)->0),
{
}

/// The order of doubles by their bits: positive ones by their bits, negative ones
/// the other way round and below the positive ones, and both zeros the same.
pub proof fn law_rank_orders_doubles(a: u64, b: u64)
    ensures
        a < 0x8000_0000_0000_0000 && b < 0x8000_0000_0000_0000 ==> (rank(a) < rank(b) <==> a < b),
        a >= 0x8000_0000_0000_0000 && b >= 0x8000_0000_0000_0000 ==> (rank(a) < rank(b) <==> b < a),
        a >= 0x8000_0000_0000_0000 && b < 0x8000_0000_0000_0000 ==> rank(a) <= rank(b) && (rank(a)
            == rank(b) <==> a == 0x8000_0000_0000_0000 && b == 0),
        rank(a) == rank(b) <==> a == b || (a % 0x8000_0000_0000_0000 == 0 && b
            % 0x8000_0000_0000_0000 == 0),
{
}

/// The compact texts of a list.
pub open spec fn item_texts(items: Seq<Tree>) -> Seq<Seq<char>> {
    items.map_values(|t: Tree| compact(t))
}

/// The compact text of a value is its JSON text without white space: an array
/// has the texts of its elements in brackets, an object the texts of its fields
/// in braces, each with its name, all of them in order and with commas between
/// them.
pub proof fn law_compact_text(t: Tree)
    ensures
        t is Null ==> compact(t) == "null"@,
        t is Bool ==> compact(t) == (if t->Bool_0 {
            "true"@
        } else {
            "false"@
        }),
        t is Number ==> compact(t) == t->Number_0,
        t is Text ==> compact(t) == json_string(t->Text_0),
        t is Array ==> compact(t) == "["@ + join(
            t->Array_0.map_values(|x: Tree| compact(x)),
            ","@,
        ) + "]"@,
        t is Object ==> compact(t) == "{"@ + join(
            t->Object_0.map_values(
                |f: (Seq<char>, Tree)| json_string(f.0) + ":"@ + compact(f.1),
            ),
            ","@,
        ) + "}"@,
{
    match t {
        Tree::Array(items) => {
            lemma_compact_items(items, items.len());
            assert(item_texts(items).take(items.len() as int) =~= item_texts(items));
        },
        Tree::Object(fields) => {
            lemma_compact_fields(fields, fields.len());
            let all = fields.map_values(
                |f: (Seq<char>, Tree)| json_string(f.0) + ":"@ + compact(f.1),
            );
            assert(all.take(fields.len() as int) =~= all);
        },
        _ => {},
    }
}

proof fn lemma_compact_items(items: Seq<Tree>, n: nat)
    requires
        n <= items.len(),
    ensures
        compact_items(items, n) == join(item_texts(items).take(n as int), ","@),
    decreases n,
{
    let all = item_texts(items);
    if n == 0 {
        assert(all.take(0) =~= Seq::empty());
    } else {
        lemma_compact_items(items, (n - 1) as nat);
        assert(all.take(n as int).drop_last() =~= all.take(n - 1));
        assert(all.take(n as int).last() == compact(items[n - 1]));
        if n == 1 {
            assert(compact_items(items, 0) =~= Seq::empty());
            assert(compact_items(items, 1) =~= compact(items[0]));
        }
    }
}

proof fn lemma_compact_fields(fields: Seq<(Seq<char>, Tree)>, n: nat)
    requires
        n <= fields.len(),
    ensures
        compact_fields(fields, n) == join(
            fields.map_values(
                |f: (Seq<char>, Tree)| json_string(f.0) + ":"@ + compact(f.1),
            ).take(n as int),
            ","@,
        ),
    decreases n,
{
    let all = fields.map_values(|f: (Seq<char>, Tree)| json_string(f.0) + ":"@ + compact(f.1));
    if n == 0 {
        assert(all.take(0) =~= Seq::empty());
    } else {
        lemma_compact_fields(fields, (n - 1) as nat);
        let f = fields[n - 1];
        assert(all.take(n as int).drop_last() =~= all.take(n - 1));
        assert(all.take(n as int).last() == json_string(f.0) + ":"@ + compact(f.1));
        if n == 1 {
            assert(compact_fields(fields, 0) =~= Seq::empty());
            assert(compact_fields(fields, 1) =~= json_string(f.0) + ":"@ + compact(f.1));
        } else {
            let before = compact_fields(fields, (n - 1) as nat) + ","@;
            assert(before + json_string(f.0) + ":"@ + compact(f.1) =~= before + (json_string(f.0)
                + ":"@ + compact(f.1)));
        }
    }
}

proof fn lemma_escaped_front(s: Seq<char>)
    requires
        s.len() > 0,
    ensures
        escaped_text(s) == escaped(s[0]) + escaped_text(s.skip(1)),
    decreases s.len(),
{
    if s.len() == 1 {
        reveal_with_fuel(escaped_text, 2);
        assert(s.drop_last() =~= Seq::empty());
        assert(s.skip(1) =~= Seq::empty());
        assert(escaped_text(s) =~= escaped(s[0]) + escaped_text(s.skip(1)));
    } else {
        lemma_escaped_front(s.drop_last());
        assert(s.drop_last().skip(1) =~= s.skip(1).drop_last());
        assert(escaped(s[0]) + escaped_text(s.skip(1).drop_last()) + escaped(s.last())
            =~= escaped(s[0]) + (escaped_text(s.skip(1).drop_last()) + escaped(s.last())));
    }
}

proof fn lemma_escape_is_decodable(x: char, a: Seq<char>, y: char, b: Seq<char>)
    requires
        escaped(x) + a == escaped(y) + b,
    ensures
        x == y,
        a == b,
{
    vstd::utf8::char_u32_cast(x, x as u32);
    vstd::utf8::char_u32_cast(y, y as u32);
    let all = escaped(x) + a;
    assert(all[0] == escaped(x)[0]);
    assert(all[0] == escaped(y)[0]);
    if all[0] == '\\' {
        assert(escaped(x).len() >= 2);
        assert(escaped(y).len() >= 2);
        assert(all[1] == escaped(x)[1]);
        assert(all[1] == escaped(y)[1]);
        if all[1] == 'u' {
            assert(escaped(x).len() == 6);
            assert(escaped(y).len() == 6);
            assert(all[4] == escaped(x)[4]);
            assert(all[4] == escaped(y)[4]);
            assert(all[5] == escaped(x)[5]);
            assert(all[5] == escaped(y)[5]);
            assert((x as nat) < 0x20 && (y as nat) < 0x20);
            lemma_hex_char(x as nat / 16, y as nat / 16);
            lemma_hex_char(x as nat % 16, y as nat % 16);
            assert(x as nat == 16 * (x as nat / 16) + x as nat % 16);
            assert(y as nat == 16 * (y as nat / 16) + y as nat % 16);
        }
    }
    assert(x == y);
    let n = escaped(x).len() as int;
    assert(a =~= all.skip(n));
    assert(b =~= all.skip(n));
}

proof fn lemma_hex_char(m: nat, n: nat)
    requires
        m < 16,
        n < 16,
        hex_char(m) == hex_char(n),
    ensures
        m == n,
{
    let a = hex_char(m);
    let b = hex_char(n);
    assert(a as nat == (if m < 10 {
        0x30 + m
    } else {
        0x57 + m
    }));
    assert(b as nat == (if n < 10 {
        0x30 + n
    } else {
        0x57 + n
    }));
}

proof fn lemma_escaped_apart(a: Seq<char>, b: Seq<char>)
    requires
        escaped_text(a) == escaped_text(b),
    ensures
        a == b,
    decreases a.len(),
{
    if a.len() > 0 && b.len() > 0 {
        lemma_escaped_front(a);
        lemma_escaped_front(b);
        lemma_escape_is_decodable(a[0], escaped_text(a.skip(1)), b[0], escaped_text(b.skip(1)));
        lemma_escaped_apart(a.skip(1), b.skip(1));
        assert(a =~= seq![a[0]] + a.skip(1));
        assert(b =~= seq![b[0]] + b.skip(1));
        assert(a == b);
    } else if a.len() > 0 {
        lemma_escaped_len(a);
        assert(escaped_text(b).len() == 0);
    } else if b.len() > 0 {
        lemma_escaped_len(b);
        assert(escaped_text(a).len() == 0);
    } else {
        assert(a =~= b);
    }
}

/// Two strings have the same literal exactly if they are the same string. A
/// literal stands in quotes and is no shorter than the string.
pub proof fn law_strings_are_told_apart(a: Seq<char>, b: Seq<char>)
    ensures
        json_string(a) == json_string(b) <==> a == b,
        compact(Tree::Text(a)) == compact(Tree::Text(b)) <==> a == b,
        json_string(a).len() >= 2 + a.len(),
        json_string(a)[0] == '"',
        json_string(a).last() == '"',
{
    reveal_strlit("\"");
    lemma_escaped_len(a);
    if json_string(a) == json_string(b) {
        let x = json_string(a);
        assert(escaped_text(a) =~= x.subrange(1, x.len() - 1));
        assert(escaped_text(b) =~= json_string(b).subrange(1, json_string(b).len() - 1));
        lemma_escaped_apart(a, b);
    }
}

proof fn lemma_escaped_len(s: Seq<char>)
    ensures
        escaped_text(s).len() >= s.len(),
    decreases s.len(),
{
    if s.len() > 0 {
        lemma_escaped_len(s.drop_last());
    }
}

/// The value holds no object.
pub open spec fn no_objects(t: Tree) -> bool
    decreases t,
{
    match t {
        Tree::Array(items) => forall|i: int|
            0 <= i < items.len() ==> no_objects(#[trigger] items[i]),
        Tree::Object(_) => false,
        _ => true,
    }
}

/// Two values without objects are the same exactly if they are equal; of two
/// objects each field of the one is looked up in the other.
pub proof fn law_same_values(a: Tree, b: Tree)
    ensures
        no_objects(a) ==> (same_tree(a, b) <==> a == b),
        a is Object ==> (same_tree(a, b) <==> b is Object && a->Object_0.len() == b->Object_0.len()
            && forall|i: int|
            0 <= i < a->Object_0.len() ==> b.get((#[trigger] a->Object_0[i]).0) is Some
                && same_tree(a->Object_0[i].1, b.get(a->Object_0[i].0)->0)),
    decreases a,
{
    match (a, b) {
        (Tree::Array(x), Tree::Array(y)) => {
            if no_objects(a) && x.len() == y.len() {
                assert forall|i: int| 0 <= i < x.len() implies (same_tree(#[trigger] x[i], y[i])
                    <==> x[i] == y[i]) by {
                    assert(no_objects(x[i]));
                    law_same_values(x[i], y[i]);
                }
                if same_tree(a, b) {
                    assert(x =~= y);
                }
            }
        },
        _ => {},
    }
}

/// Two arrays are the same if they have the same values in the same places; two
/// objects if they have as many fields, and each of the one is in the other with
/// the same value, wherever it stands.
pub proof fn law_same_containers(
    x: Seq<Tree>,
    y: Seq<Tree>,
    a: Seq<(Seq<char>, Tree)>,
    b: Seq<(Seq<char>, Tree)>,
)
    ensures
        same_tree(Tree::Array(x), Tree::Array(y)) <==> x.len() == y.len() && forall|i: int|
            0 <= i < x.len() ==> same_tree(#[trigger] x[i], y[i]),
        same_tree(Tree::Object(a), Tree::Object(b)) <==> a.len() == b.len() && forall|i: int|
            0 <= i < a.len() ==> Tree::Object(b).get((#[trigger] a[i]).0) is Some && same_tree(
                a[i].1,
                Tree::Object(b).get(a[i].0)->0,
            ),
{
    if same_tree(Tree::Object(a), Tree::Object(b)) {
        assert forall|i: int| 0 <= i < a.len() implies Tree::Object(b).get((#[trigger] a[i]).0)
            is Some && same_tree(a[i].1, Tree::Object(b).get(a[i].0)->0) by {
            assert(field_of(b, a[i].0) == Tree::Object(b).get(a[i].0));
        }
    } else if a.len() == b.len() {
        assert(exists|i: int|
            0 <= i < a.len() && !(match field_of(b, (#[trigger] a[i]).0) {
                Some(v) => same_tree(a[i].1, v),
                None => false,
            }));
    }
}

/// What bytes read as is what reading them gives, if that is no error.
pub proof fn law_reading(bytes: Seq<u8>, t: Tree)
    ensures
        json_of_bytes(bytes) == Some(t) <==> json_result(bytes) == Ok::<Tree, Seq<char>>(t),
        json_of_bytes(bytes) is None <==> json_result(bytes) is Err,
{
}

/// How deep a value nests: a scalar not at all, a container one deeper than what
/// it holds.
pub proof fn law_nesting(t: Tree, items: Seq<Tree>, fields: Seq<(Seq<char>, Tree)>, n: nat)
    ensures
        !(t is Array || t is Object) ==> nests_within(t, n),
        nests_within(Tree::Array(items), n) <==> n > 0 && forall|i: int|
            0 <= i < items.len() ==> nests_within(#[trigger] items[i], (n - 1) as nat),
        nests_within(Tree::Object(fields), n) <==> n > 0 && forall|i: int|
            0 <= i < fields.len() ==> nests_within((#[trigger] fields[i]).1, (n - 1) as nat),
{
    let list = Tree::Array(items);
    let object = Tree::Object(fields);
    if nests_within(list, n) {
        assert forall|i: int| 0 <= i < items.len() implies nests_within(
            #[trigger] items[i],
            (n - 1) as nat,
        ) by {
            assert(list->Array_0[i] == items[i]);
        }
    } else if n > 0 {
        let i = choose|i: int|
            0 <= i < items.len() && !nests_within(#[trigger] items[i], (n - 1) as nat);
        assert(!nests_within(items[i], (n - 1) as nat));
    }
    if nests_within(object, n) {
        assert forall|i: int| 0 <= i < fields.len() implies nests_within(
            (#[trigger] fields[i]).1,
            (n - 1) as nat,
        ) by {
            assert(object->Object_0[i] == fields[i]);
        }
    } else if n > 0 {
        let i = choose|i: int|
            0 <= i < fields.len() && !nests_within((#[trigger] fields[i]).1, (n - 1) as nat);
        assert(!nests_within(fields[i].1, (n - 1) as nat));
    }
}

/// A value stands for the tree of all it holds.
pub proof fn law_value_views(
    b: bool,
    s: String,
    items: Vec<Json>,
    fields: Vec<(String, Json)>,
    i: int,
)
    ensures
        Json::Null@ == Tree::Null,
        Json::Bool(b)@ == Tree::Bool(b),
        Json::Number(s)@ == Tree::Number(s@),
        Json::Text(s)@ == Tree::Text(s@),
        Json::Array(items)@ == Tree::Array(trees(items@)),
        Json::Object(fields)@ == Tree::Object(field_trees(fields@)),
        trees(items@).len() == items@.len(),
        0 <= i < items@.len() ==> trees(items@)[i] == items@[i]@,
        field_trees(fields@).len() == fields@.len(),
        0 <= i < fields@.len() ==> field_trees(fields@)[i] == (fields@[i].0@, fields@[i].1@),
{
}

/// How a character is written in a JSON string: a quote, a backslash and the
/// characters below the blank behind a backslash, every other as it is.
pub proof fn law_escapes(s: Seq<char>, c: char)
    ensures
        json_string(Seq::empty()) == "\"\""@,
        json_string(s) == "\""@ + escaped_text(s) + "\""@,
        escaped_text(s.push(c)) == escaped_text(s) + (if c == '"' {
            "\\\""@
        } else if c == '\\' {
            "\\\\"@
        } else if c == '\u{8}' {
            "\\b"@
        } else if c == '\t' {
            "\\t"@
        } else if c == '\n' {
            "\\n"@
        } else if c == '\u{c}' {
            "\\f"@
        } else if c == '\r' {
            "\\r"@
        } else if (c as int) < 0x20 {
            "\\u00"@ + seq![hex_char(c as nat / 16), hex_char(c as nat % 16)]
        } else {
            seq![c]
        }),
{
    reveal_strlit("\"");
    reveal_strlit("\"\"");
    reveal_strlit("\\\"");
    reveal_strlit("\\\\");
    reveal_strlit("\\b");
    reveal_strlit("\\t");
    reveal_strlit("\\n");
    reveal_strlit("\\f");
    reveal_strlit("\\r");
    reveal_strlit("\\u00");
    vstd::utf8::char_u32_cast(c, c as u32);
    assert(json_string(Seq::empty()) =~= "\"\""@);
    assert(s.push(c).drop_last() =~= s);
    assert(escaped_text(s.push(c)) == escaped_text(s) + escaped(c));
    if c == '"' {
        assert(escaped(c) =~= "\\\""@);
    } else if c == '\\' {
        assert(escaped(c) =~= "\\\\"@);
    } else if c == '\u{8}' {
        assert(escaped(c) =~= "\\b"@);
    } else if c == '\t' {
        assert(escaped(c) =~= "\\t"@);
    } else if c == '\n' {
        assert(escaped(c) =~= "\\n"@);
    } else if c == '\u{c}' {
        assert(escaped(c) =~= "\\f"@);
    } else if c == '\r' {
        assert(escaped(c) =~= "\\r"@);
    } else if (c as int) < 0x20 {
        assert(escaped(c) =~= "\\u00"@ + seq![hex_char(c as nat / 16), hex_char(c as nat % 16)]);
    } else {
        assert(escaped(c) =~= seq![c]);
    }
}

} // verus!
