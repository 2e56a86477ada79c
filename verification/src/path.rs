//! One value out of a JSON document, by a path such as `$.items[0].name`.
use crate::json::{
    field_of, json_result, open_value, parse_value, pretty_json, pretty_value, value_tree,
    value_trees, Node, Tree,
};
use crate::numeral::{numeral_within, parse_usize};
use crate::text::{
    chars_of, decimal, decimal_of, same_chars, slice_of, string_of, trim, trim_of,
};
use vstd::prelude::*;

verus! {

/// How many characters stand before the first `a` or `b`.
pub open spec fn until(s: Seq<char>, a: char, b: char) -> nat
    decreases s.len(),
{
    if s.len() == 0 || s[0] == a || s[0] == b {
        0
    } else {
        1 + until(s.skip(1), a, b)
    }
}

/// The value that is reached from `t` by the steps in `rest`, or what is wrong
/// with them.
pub open spec fn steps(t: Tree, rest: Seq<char>) -> Result<Tree, Seq<char>>
    decreases rest.len(),
{
    if rest.len() == 0 {
        Ok(t)
    } else if rest[0] == '.' {
        let after = rest.skip(1);
        let end = until(after, '.', '[');
        let key = after.take(end as int);
        if end == 0 {
            Err("empty field in JSON path"@)
        } else if !(t is Object) {
            Err("path field "@ + key + " needs an object"@)
        } else if t.get(key) is None {
            Err("path field not found: "@ + key)
        } else {
            proof {
                lemma_until(after, '.', '[');
            }
            steps(t.get(key)->0, after.skip(end as int))
        }
    } else if rest[0] == '[' {
        let after = rest.skip(1);
        let close = until(after, ']', ']');
        let inside = after.take(close as int);
        if close == after.len() {
            Err("unterminated array index in JSON path"@)
        } else {
            match numeral_within(inside, usize::MAX as nat) {
                None => Err("invalid array index: "@ + inside),
                Some(i) => if !(t is Array) {
                    Err("array index "@ + decimal(i) + " needs an array"@)
                } else if i >= t->Array_0.len() {
                    Err("array index out of range: "@ + decimal(i))
                } else {
                    proof {
                        lemma_until(after, ']', ']');
                    }
                    steps(t->Array_0[i as int], after.skip(close as int + 1))
                },
            }
        }
    } else {
        Err("JSON path must use .field and [index] steps"@)
    }
}

/// The value that a path selects, or what is wrong with the path. White space
/// around it is passed over, and the sign for the whole document in front of
/// the steps may be left out.
pub open spec fn selected(t: Tree, path: Seq<char>) -> Result<Tree, Seq<char>> {
    let rest = trim(path);
    if rest.len() > 0 && rest[0] == '$' {
        steps(t, rest.skip(1))
    } else {
        steps(t, rest)
    }
}

/// What stands before the first `a` or `b` is part of the text.
pub proof fn lemma_until(s: Seq<char>, a: char, b: char)
    ensures
        until(s, a, b) <= s.len(),
    decreases s.len(),
{
    if !(s.len() == 0 || s[0] == a || s[0] == b) {
        lemma_until(s.skip(1), a, b);
    }
}

fn is_either(c: char, a: char, b: char) -> (r: bool)
    ensures
        r == (c == a || c == b),
{
    c == a || c == b
}

fn until_of(s: &[char], from: usize, a: char, b: char) -> (n: usize)
    requires
        from <= s@.len(),
    ensures
        n == until(s@.skip(from as int), a, b),
        from + n <= s@.len(),
{
    let ghost all = s@.skip(from as int);
    let mut i: usize = from;
    assert(all.skip(0) =~= all);
    while i < s.len() && !is_either(s[i], a, b)
        invariant
            from <= i <= s@.len(),
            all == s@.skip(from as int),
            until(all, a, b) == (i - from) + until(all.skip(i - from), a, b),
        decreases s@.len() - i,
    {
        assert(all.skip(i - from)[0] == s@[i as int]);
        assert(all.skip(i - from).skip(1) =~= all.skip(i - from + 1));
        i += 1;
    }
    proof {
        lemma_until(all, a, b);
        if i < s@.len() {
            assert(all.skip(i - from)[0] == s@[i as int]);
        }
    }
    i - from
}

/// Where a field stands among the fields of an object.
fn field_at(fields: &Vec<(String, serde_json::Value)>, key: &[char]) -> (out: Option<usize>)
    ensures
        ({
            let seen = Seq::new(fields@.len(), |i: int| (fields@[i].0@, value_tree(fields@[i].1)));
            match out {
                Some(i) => i < fields@.len() && field_of(seen, key@) == Some(
                    value_tree(fields@[i as int].1),
                ),
                None => field_of(seen, key@) is None,
            }
        }),
{
    let ghost seen = Seq::new(fields@.len(), |i: int| (fields@[i].0@, value_tree(fields@[i].1)));
    let mut i: usize = 0;
    assert(seen.skip(0) =~= seen);
    while i < fields.len()
        invariant
            i <= fields@.len(),
            seen == Seq::new(fields@.len(), |i: int| (fields@[i].0@, value_tree(fields@[i].1))),
            field_of(seen, key@) == field_of(seen.skip(i as int), key@),
        decreases fields@.len() - i,
    {
        assert(seen.skip(i as int)[0] == seen[i as int]);
        assert(seen.skip(i as int).skip(1) =~= seen.skip(i as int + 1));
        let name = chars_of(fields[i].0.as_str());
        if same_chars(&name, key) {
            return Some(i);
        }
        i += 1;
    }
    None
}

/// The value that a path selects, or what is wrong with the path.
pub(crate) fn select_json_path(value: serde_json::Value, path: &str) -> (out: Result<
    serde_json::Value,
    String,
>)
    ensures
        match out {
            Ok(v) => selected(value_tree(value), path@) == Ok::<Tree, Seq<char>>(value_tree(v)),
            Err(e) => selected(value_tree(value), path@) == Err::<Tree, Seq<char>>(e@),
        },
{
    let ghost wanted = selected(value_tree(value), path@);
    let rest = trim_of(&chars_of(path));
    let mut at: usize = 0;
    if rest.len() > 0 && rest[0] == '$' {
        at = 1;
    }
    let mut current = value;
    assert(rest@.skip(0) =~= rest@);
    while at < rest.len()
        invariant
            at <= rest@.len(),
            wanted == selected(value_tree(value), path@),
            wanted == steps(value_tree(current), rest@.skip(at as int)),
        decreases rest@.len() - at,
    {
        let ghost t = value_tree(current);
        let ghost here = rest@.skip(at as int);
        let ghost after = here.skip(1);
        assert(here[0] == rest@[at as int]);
        assert(after =~= rest@.skip(at as int + 1));
        if rest[at] == '.' {
            let end = until_of(&rest, at + 1, '.', '[');
            if end == 0 {
                return Err("empty field in JSON path".to_owned());
            }
            let key = slice_of(&rest, at + 1, at + 1 + end);
            assert(key@ =~= after.take(end as int));
            match open_value(current) {
                Node::Object(fields) => {
                    let ghost seen = Seq::new(
                        fields@.len(),
                        |i: int| (fields@[i].0@, value_tree(fields@[i].1)),
                    );
                    assert(t == Tree::Object(seen));
                    match field_at(&fields, &key) {
                        Some(i) => {
                            let mut fields = fields;
                            let (_, next) = fields.remove(i);
                            current = next;
                        },
                        None => {
                            return Err(
                                "path field not found: ".to_owned().concat(
                                    string_of(&key).as_str(),
                                ),
                            );
                        },
                    }
                },
                _ => {
                    return Err(
                        "path field ".to_owned().concat(string_of(&key).as_str()).concat(
                            " needs an object",
                        ),
                    );
                },
            }
            assert(after.skip(end as int) =~= rest@.skip(at + 1 + end));
            at = at + 1 + end;
        } else if rest[at] == '[' {
            let close = until_of(&rest, at + 1, ']', ']');
            if at + 1 + close == rest.len() {
                return Err("unterminated array index in JSON path".to_owned());
            }
            let inside = slice_of(&rest, at + 1, at + 1 + close);
            assert(inside@ =~= after.take(close as int));
            let index: usize = match parse_usize(&inside) {
                Some(i) => i,
                None => {
                    return Err(
                        "invalid array index: ".to_owned().concat(string_of(&inside).as_str()),
                    );
                },
            };
            match open_value(current) {
                Node::Array(items) => {
                    assert(t == Tree::Array(value_trees(items@)));
                    if index >= items.len() {
                        return Err(
                            "array index out of range: ".to_owned().concat(
                                decimal_of(index).as_str(),
                            ),
                        );
                    }
                    let mut items = items;
                    current = items.remove(index);
                },
                _ => {
                    return Err(
                        "array index ".to_owned().concat(decimal_of(index).as_str()).concat(
                            " needs an array",
                        ),
                    );
                },
            }
            assert(after.skip(close as int + 1) =~= rest@.skip(at + 1 + close + 1));
            at = at + 1 + close + 1;
        } else {
            return Err("JSON path must use .field and [index] steps".to_owned());
        }
    }
    Ok(current)
}

/// The text for a path into a document, or why there is none.
pub open spec fn path_text(bytes: Seq<u8>, path: Seq<char>) -> Result<Seq<char>, Seq<char>> {
    match json_result(bytes) {
        Err(e) => Err("not valid JSON: "@ + e),
        Ok(t) => match selected(t, path) {
            Err(e) => Err(e),
            Ok(v) => match pretty_json(v) {
                Err(e) => Err("render JSON path: "@ + e),
                Ok(body) => Ok("json path "@ + path + "\n"@ + body),
            },
        },
    }
}

/// An outcome as plain values.
pub open spec fn outcome(out: Result<String, String>) -> Result<Seq<char>, Seq<char>> {
    match out {
        Ok(s) => Ok(s@),
        Err(s) => Err(s@),
    }
}

/// The text for a path into the document in `bytes`, or why there is none.
pub fn render_json_path(bytes: &[u8], path: &str) -> (out: Result<String, String>)
    ensures
        outcome(out) == path_text(bytes@, path@),
{
    let value = match parse_value(bytes) {
        Ok(value) => value,
        Err(e) => {
            return Err("not valid JSON: ".to_owned().concat(e.as_str()));
        },
    };
    let found = match select_json_path(value, path) {
        Ok(found) => found,
        Err(e) => {
            return Err(e);
        },
    };
    match pretty_value(&found) {
        Ok(body) => Ok(
            "json path ".to_owned().concat(path).concat("\n").concat(body.as_str()),
        ),
        Err(e) => Err("render JSON path: ".to_owned().concat(e.as_str())),
    }
}

/// The empty path and the sign for the whole document select the document.
pub proof fn law_root_selects_all(t: Tree)
    ensures
        selected(t, Seq::empty()) == Ok::<Tree, Seq<char>>(t),
        selected(t, seq!['$']) == Ok::<Tree, Seq<char>>(t),
{
    let root = seq!['$'];
    assert(!crate::text::white('$'));
    assert(trim(root) == root);
    assert(root.skip(1) =~= Seq::empty());
    assert(trim(Seq::<char>::empty()) =~= Seq::empty());
}

/// A step by name goes to the field of that name of an object, and a step by
/// number to the element at that place of an array, counted from 0; whatever
/// follows is taken from there. Each way a step can fail has its message.
pub proof fn law_path_steps(t: Tree, key: Seq<char>, inside: Seq<char>, rest: Seq<char>)
    requires
        forall|i: int| 0 <= i < key.len() ==> #[trigger] key[i] != '.' && key[i] != '[',
        forall|i: int| 0 <= i < inside.len() ==> #[trigger] inside[i] != ']',
    ensures
        steps(t, Seq::empty()) == Ok::<Tree, Seq<char>>(t),
        rest.len() == 0 || rest[0] == '.' || rest[0] == '[' ==> steps(t, "."@ + key + rest) == (
        if key.len() == 0 {
            Err::<Tree, Seq<char>>("empty field in JSON path"@)
        } else if !(t is Object) {
            Err("path field "@ + key + " needs an object"@)
        } else if t.get(key) is None {
            Err("path field not found: "@ + key)
        } else {
            steps(t.get(key)->0, rest)
        }),
        steps(t, "["@ + inside + "]"@ + rest) == (match numeral_within(inside, usize::MAX as nat) {
            None => Err::<Tree, Seq<char>>("invalid array index: "@ + inside),
            Some(i) => if !(t is Array) {
                Err("array index "@ + decimal(i) + " needs an array"@)
            } else if i >= t->Array_0.len() {
                Err("array index out of range: "@ + decimal(i))
            } else {
                steps(t->Array_0[i as int], rest)
            },
        }),
        steps(t, "["@ + inside) == Err::<Tree, Seq<char>>(
            "unterminated array index in JSON path"@,
        ),
        rest.len() > 0 && rest[0] != '.' && rest[0] != '[' ==> steps(t, rest) == Err::<
            Tree,
            Seq<char>,
        >("JSON path must use .field and [index] steps"@),
{
    reveal_strlit(".");
    reveal_strlit("[");
    reveal_strlit("]");
    if rest.len() == 0 || rest[0] == '.' || rest[0] == '[' {
        let whole = "."@ + key + rest;
        let after = whole.skip(1);
        assert(after =~= key + rest);
        lemma_until_stop(key, rest, '.', '[');
        assert(after.take(key.len() as int) =~= key);
        assert(after.skip(key.len() as int) =~= rest);
    }
    let whole = "["@ + inside + "]"@ + rest;
    let after = whole.skip(1);
    let tail = "]"@ + rest;
    assert(after =~= inside + tail);
    lemma_until_stop(inside, tail, ']', ']');
    assert(after.take(inside.len() as int) =~= inside);
    assert(after.skip(inside.len() as int + 1) =~= rest);
    assert(("["@ + inside).skip(1) =~= inside);
    lemma_until_stop(inside, Seq::empty(), ']', ']');
    assert(inside + Seq::<char>::empty() =~= inside);
}

proof fn lemma_until_stop(run: Seq<char>, rest: Seq<char>, a: char, b: char)
    requires
        forall|i: int| 0 <= i < run.len() ==> #[trigger] run[i] != a && run[i] != b,
        rest.len() == 0 || rest[0] == a || rest[0] == b,
    ensures
        until(run + rest, a, b) == run.len(),
    decreases run.len(),
{
    if run.len() == 0 {
        assert(run + rest =~= rest);
    } else {
        let less = run.skip(1);
        assert(forall|i: int| 0 <= i < less.len() ==> #[trigger] less[i] == run[i + 1]);
        lemma_until_stop(less, rest, a, b);
        assert((run + rest).skip(1) =~= less + rest);
        assert((run + rest)[0] == run[0]);
    }
}

/// A path may be surrounded by white space and begin with one dollar sign.
pub proof fn law_path_root(t: Tree, path: Seq<char>)
    ensures
        trim(path).len() > 0 && trim(path)[0] == '$' ==> selected(t, path) == steps(
            t,
            trim(path).skip(1),
        ),
        trim(path).len() == 0 || trim(path)[0] != '$' ==> selected(t, path) == steps(t, trim(path)),
{
}

/// The text of a path is the value it leads to, in full.
pub proof fn law_path_text(bytes: Seq<u8>, path: Seq<char>, t: Tree, v: Tree)
    ensures
        json_result(bytes) is Err ==> path_text(bytes, path) == Err::<Seq<char>, Seq<char>>(
            "not valid JSON: "@ + json_result(bytes)->Err_0,
        ),
        json_result(bytes) == Ok::<Tree, Seq<char>>(t) && selected(t, path) is Err ==> path_text(
            bytes,
            path,
        ) == Err::<Seq<char>, Seq<char>>(selected(t, path)->Err_0),
        json_result(bytes) == Ok::<Tree, Seq<char>>(t) && selected(t, path) == Ok::<
            Tree,
            Seq<char>,
        >(v) && pretty_json(v) is Ok ==> path_text(bytes, path) == Ok::<Seq<char>, Seq<char>>(
            "json path "@ + path + "\n"@ + pretty_json(v)->Ok_0,
        ),
        json_result(bytes) == Ok::<Tree, Seq<char>>(t) && selected(t, path) == Ok::<
            Tree,
            Seq<char>,
        >(v) && pretty_json(v) is Err ==> path_text(bytes, path) == Err::<Seq<char>, Seq<char>>(
            "render JSON path: "@ + pretty_json(v)->Err_0,
        ),
{
}

} // verus!
