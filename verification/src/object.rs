//! The values that programs compute.

use crate::ast::{
    block_text, clone_block, clone_names, names_text, names_view, write_block, write_names,
    BlockStatement, StatementView,
};
use crate::semantics::EvalError;
use crate::text::{decimal_int, integer_to_string};
use vstd::prelude::*;

verus! {

/// A value.
///
/// A hash holds its entries in a list, in the order in which their keys
/// first came in: that order is the order in which the hash is shown, and a
/// hash map of the standard library can neither be keyed by values, of whose
/// hashing nothing is known to the verifier, nor, keyed by strings, hold
/// values of the type that holds it. A function holds its parameter names,
/// its body and the scope in which it was made.
#[derive(Debug, PartialEq)]
pub enum Object {
    Null,
    Integer(i64),
    Bool(bool),
    String(String),
    BuiltInFunction(String),
    Array(Vec<Object>),
    HashMap(Vec<(Object, Object)>),
    FunctionLiteral(Vec<String>, BlockStatement, usize),
}

/// A value as a mathematical value.
pub enum Value {
    Null,
    Integer(i64),
    Bool(bool),
    String(Seq<char>),
    BuiltInFunction(Seq<char>),
    Array(Seq<Value>),
    HashMap(Seq<(Value, Value)>),
    FunctionLiteral(Seq<Seq<char>>, Seq<StatementView>, int),
}

/// The mathematical value of a value.
pub open spec fn object_view(o: Object) -> Value
    decreases o,
{
    match o {
        Object::Null => Value::Null,
        Object::Integer(i) => Value::Integer(i),
        Object::Bool(b) => Value::Bool(b),
        Object::String(s) => Value::String(s@),
        Object::BuiltInFunction(name) => Value::BuiltInFunction(name@),
        Object::Array(members) => Value::Array(objects_view(members)),
        Object::HashMap(entries) => Value::HashMap(entries_view(entries)),
        Object::FunctionLiteral(parameters, body, scope) => Value::FunctionLiteral(
            names_view(parameters),
            body@,
            scope as int,
        ),
    }
}

/// The mathematical value of a list of values.
pub open spec fn objects_view(os: Vec<Object>) -> Seq<Value>
    decreases os,
{
    Seq::new(
        os@.len(),
        |i: int|
            if 0 <= i < os@.len() {
                object_view(os@[i])
            } else {
                Value::Null
            },
    )
}

/// The mathematical value of the entries of a hash.
pub open spec fn entries_view(entries: Vec<(Object, Object)>) -> Seq<(Value, Value)>
    decreases entries,
{
    Seq::new(
        entries@.len(),
        |i: int|
            if 0 <= i < entries@.len() {
                (object_view(entries@[i].0), object_view(entries@[i].1))
            } else {
                (Value::Null, Value::Null)
            },
    )
}

impl View for Object {
    type V = Value;

    open spec fn view(&self) -> Value {
        object_view(*self)
    }
}

/// Copies a value.
pub fn clone_object(o: &Object) -> (copy: Object)
    ensures
        copy@ == o@,
    decreases o,
{
    match o {
        Object::Null => Object::Null,
        Object::Integer(i) => Object::Integer(*i),
        Object::Bool(b) => Object::Bool(*b),
        Object::String(s) => Object::String(s.clone()),
        Object::BuiltInFunction(name) => Object::BuiltInFunction(name.clone()),
        Object::Array(members) => Object::Array(clone_objects(members)),
        Object::HashMap(entries) => Object::HashMap(clone_entries(entries)),
        Object::FunctionLiteral(parameters, body, scope) => Object::FunctionLiteral(
            clone_names(parameters),
            clone_block(body),
            *scope,
        ),
    }
}

/// Copies a list of values.
pub fn clone_objects(os: &Vec<Object>) -> (copy: Vec<Object>)
    ensures
        objects_view(copy) == objects_view(*os),
    decreases os,
{
    let mut copy: Vec<Object> = Vec::new();
    let mut i: usize = 0;
    while i < os.len()
        invariant
            i <= os.len(),
            copy@.len() == i,
            forall|j: int| 0 <= j < i ==> copy@[j]@ == os@[j]@,
        decreases os.len() - i,
    {
        copy.push(clone_object(&os[i]));
        i = i + 1;
    }
    proof {
        assert(objects_view(copy) =~= objects_view(*os));
    }
    copy
}

/// Copies the entries of a hash.
pub fn clone_entries(entries: &Vec<(Object, Object)>) -> (copy: Vec<(Object, Object)>)
    ensures
        entries_view(copy) == entries_view(*entries),
    decreases entries,
{
    let mut copy: Vec<(Object, Object)> = Vec::new();
    let mut i: usize = 0;
    while i < entries.len()
        invariant
            i <= entries.len(),
            copy@.len() == i,
            forall|j: int|
                0 <= j < i ==> copy@[j].0@ == entries@[j].0@ && copy@[j].1@ == entries@[j].1@,
        decreases entries.len() - i,
    {
        let key = clone_object(&entries[i].0);
        let value = clone_object(&entries[i].1);
        copy.push((key, value));
        i = i + 1;
    }
    proof {
        assert(entries_view(copy) =~= entries_view(*entries));
    }
    copy
}

impl Clone for Object {
    fn clone(&self) -> (copy: Self)
        ensures
            copy@ == self@,
    {
        clone_object(self)
    }
}

/// Whether a value can be the key of a hash entry: integers and strings can.
pub open spec fn is_hashable(v: Value) -> bool {
    v is Integer || v is String
}

/// The index of the first entry at or after `from` with the key `key`, if
/// there is one.
pub open spec fn hash_find_from(entries: Seq<(Value, Value)>, key: Value, from: int) -> Option<int>
    decreases entries.len() - from,
{
    if !(0 <= from < entries.len()) {
        None
    } else if entries[from].0 == key {
        Some(from)
    } else {
        hash_find_from(entries, key, from + 1)
    }
}

/// The index of the first entry with the key `key`, if there is one.
pub open spec fn hash_find(entries: Seq<(Value, Value)>, key: Value) -> Option<int> {
    hash_find_from(entries, key, 0)
}

/// What a search for a key finds is an entry with that key, and what it
/// misses is in no entry from where it started.
pub proof fn lemma_hash_find_from(entries: Seq<(Value, Value)>, key: Value, from: int)
    requires
        0 <= from,
    ensures
        match hash_find_from(entries, key, from) {
            Some(i) => from <= i < entries.len() && entries[i].0 == key,
            None => forall|j: int| from <= j < entries.len() ==> (#[trigger] entries[j]).0 != key,
        },
    decreases entries.len() - from,
{
    if from < entries.len() && entries[from].0 != key {
        lemma_hash_find_from(entries, key, from + 1);
    }
}

/// The value under `key`, and `Null` where the hash has no such key.
pub open spec fn hash_get(entries: Seq<(Value, Value)>, key: Value) -> Value {
    match hash_find(entries, key) {
        Some(i) => entries[i].1,
        None => Value::Null,
    }
}

/// The entries with `value` under `key`: in place of the entry that had the
/// key, or at the end if none had it.
pub open spec fn hash_insert(entries: Seq<(Value, Value)>, key: Value, value: Value) -> Seq<
    (Value, Value),
> {
    match hash_find(entries, key) {
        Some(i) => entries.update(i, (key, value)),
        None => entries.push((key, value)),
    }
}

/// Whether a value is sound in an environment of `scopes` scopes: every
/// function in it was made in one of these scopes, and in every hash in it
/// the keys are integers or strings, no two of them equal.
pub open spec fn value_wf(v: Value, scopes: int) -> bool
    decreases v,
{
    match v {
        Value::Array(members) => forall|i: int|
            0 <= i < members.len() ==> value_wf(#[trigger] members[i], scopes),
        Value::HashMap(entries) => {
            &&& forall|i: int|
                0 <= i < entries.len() ==> is_hashable((#[trigger] entries[i]).0) && value_wf(
                    entries[i].1,
                    scopes,
                )
            &&& forall|i: int, j: int|
                0 <= i < j < entries.len() ==> (#[trigger] entries[i]).0 != (
                #[trigger] entries[j]).0
        },
        Value::FunctionLiteral(_, _, scope) => 0 <= scope < scopes,
        _ => true,
    }
}

/// A value that is sound among some scopes is sound among more.
pub proof fn lemma_value_wf_grows(v: Value, scopes: int, more: int)
    requires
        value_wf(v, scopes),
        scopes <= more,
    ensures
        value_wf(v, more),
    decreases v,
{
    match v {
        Value::Array(members) => {
            assert forall|i: int| 0 <= i < members.len() implies value_wf(
                #[trigger] members[i],
                more,
            ) by {
                lemma_value_wf_grows(members[i], scopes, more);
            }
        },
        Value::HashMap(entries) => {
            assert forall|i: int| 0 <= i < entries.len() implies is_hashable(
                (#[trigger] entries[i]).0,
            ) && value_wf(entries[i].1, more) by {
                lemma_value_wf_grows(entries[i].1, scopes, more);
            }
        },
        _ => {},
    }
}

/// Putting a sound value under a key that is an integer or a string keeps a
/// hash sound.
pub proof fn lemma_hash_insert_wf(
    entries: Seq<(Value, Value)>,
    key: Value,
    value: Value,
    scopes: int,
)
    requires
        value_wf(Value::HashMap(entries), scopes),
        is_hashable(key),
        value_wf(value, scopes),
    ensures
        value_wf(Value::HashMap(hash_insert(entries, key, value)), scopes),
{
    lemma_hash_find_from(entries, key, 0);
    let after = hash_insert(entries, key, value);
    let v = Value::HashMap(entries);
    assert(value_wf(v, scopes));
    assert(v->HashMap_0 == entries);
    assert(forall|i: int|
        0 <= i < entries.len() ==> is_hashable((#[trigger] entries[i]).0));
    assert forall|i: int| 0 <= i < after.len() implies is_hashable((#[trigger] after[i]).0)
        && value_wf(after[i].1, scopes) by {
        if i < entries.len() {
            assert(is_hashable(entries[i].0));
        }
    }
    assert forall|i: int, j: int| 0 <= i < j < after.len() implies (#[trigger] after[i]).0 != (
    #[trigger] after[j]).0 by {
        if j < entries.len() {
            assert(entries[i].0 != entries[j].0);
        } else {
            assert(entries[i].0 != key);
        }
    }
}

/// Whether the key of an entry is `key`, which is an integer or a string.
fn key_matches(stored: &Object, key: &Object) -> (same: bool)
    requires
        is_hashable(key@),
    ensures
        same == (stored@ == key@),
{
    match (stored, key) {
        (Object::Integer(a), Object::Integer(b)) => *a == *b,
        (Object::String(a), Object::String(b)) => *a == *b,
        _ => false,
    }
}

/// Whether a value can be the key of a hash entry.
pub fn hashable(o: &Object) -> (yes: bool)
    ensures
        yes == is_hashable(o@),
{
    match o {
        Object::Integer(_) => true,
        Object::String(_) => true,
        _ => false,
    }
}

/// The index of the first entry with the key `key`, if there is one.
fn hash_position(entries: &Vec<(Object, Object)>, key: &Object) -> (found: Option<usize>)
    requires
        is_hashable(key@),
    ensures
        match hash_find(entries_view(*entries), key@) {
            Some(i) => found == Some(i as usize) && 0 <= i < entries.len(),
            None => found.is_none(),
        },
{
    let ghost all = entries_view(*entries);
    let mut i: usize = 0;
    proof {
        lemma_hash_find_from(all, key@, 0);
    }
    while i < entries.len()
        invariant
            i <= entries.len(),
            is_hashable(key@),
            all == entries_view(*entries),
            hash_find_from(all, key@, i as int) == hash_find(all, key@),
        decreases entries.len() - i,
    {
        if key_matches(&entries[i].0, key) {
            return Some(i);
        }
        i = i + 1;
    }
    None
}

/// Puts `value` under `key`: in place of the entry that had the key, or at
/// the end if none had it. Fails, and leaves the entries as they are, where
/// the key is neither an integer nor a string.
pub fn hash_put(entries: &mut Vec<(Object, Object)>, key: Object, value: Object) -> (done: Result<
    (),
    EvalError,
>)
    ensures
        is_hashable(key@) ==> done is Ok && entries_view(*final(entries)) == hash_insert(
            entries_view(*old(entries)),
            key@,
            value@,
        ),
        !is_hashable(key@) ==> done == Err::<(), EvalError>(EvalError::UnhashableKey)
            && entries_view(*final(entries)) == entries_view(*old(entries)),
{
    if !hashable(&key) {
        return Err(EvalError::UnhashableKey);
    }
    let ghost before = entries_view(*entries);
    match hash_position(entries, &key) {
        Some(i) => {
            entries[i] = (key, value);
            proof {
                assert(entries_view(*entries) =~= before.update(i as int, (key@, value@)));
            }
        },
        None => {
            entries.push((key, value));
            proof {
                assert(entries_view(*entries) =~= before.push((key@, value@)));
            }
        },
    }
    Ok(())
}

/// The value under `key`, and `Null` where there is no such key. Fails
/// where the key is neither an integer nor a string.
pub fn hash_lookup(entries: &Vec<(Object, Object)>, key: &Object) -> (found: Result<
    Object,
    EvalError,
>)
    ensures
        is_hashable(key@) ==> (found matches Ok(value) && value@ == hash_get(
            entries_view(*entries),
            key@,
        )),
        !is_hashable(key@) ==> found == Err::<Object, EvalError>(EvalError::UnhashableKey),
{
    if !hashable(key) {
        return Err(EvalError::UnhashableKey);
    }
    match hash_position(entries, key) {
        Some(i) => Ok(clone_object(&entries[i].1)),
        None => Ok(Object::Null),
    }
}

/// The text of a value.
///
/// An integer is shown in decimal, a string between double quotes, `Null`
/// as `NULL`, a built-in function by its name. The members of an array stand
/// between brackets, the entries of a hash between braces, each as key, colon
/// and value; both are separated by commas. A function is shown as `fn`, its
/// parameter names between parentheses, and its body between braces.
pub open spec fn value_text(v: Value) -> Seq<char>
    decreases v, 0nat,
{
    match v {
        Value::Null => "NULL"@,
        Value::Integer(i) => decimal_int(i as int),
        Value::Bool(b) => if b {
            "true"@
        } else {
            "false"@
        },
        Value::String(s) => "\""@ + s + "\""@,
        Value::BuiltInFunction(name) => name,
        Value::Array(members) => "["@ + values_text(members, members.len() as int) + "]"@,
        Value::HashMap(entries) => "{"@ + entries_text(entries, entries.len() as int) + "}"@,
        Value::FunctionLiteral(parameters, body, _) => "fn("@ + names_text(parameters, 0)
            + "){"@ + block_text(body) + "}"@,
    }
}

/// The texts of the first `count` values, with a comma between each two.
pub open spec fn values_text(values: Seq<Value>, count: int) -> Seq<char>
    decreases values, count,
{
    if count <= 0 || count > values.len() {
        Seq::empty()
    } else if count == 1 {
        value_text(values[0])
    } else {
        values_text(values, count - 1) + ","@ + value_text(values[count - 1])
    }
}

/// The texts of the first `count` entries, each as key, colon and value,
/// with a comma between each two.
pub open spec fn entries_text(entries: Seq<(Value, Value)>, count: int) -> Seq<char>
    decreases entries, count,
{
    if count <= 0 || count > entries.len() {
        Seq::empty()
    } else if count == 1 {
        value_text(entries[0].0) + ":"@ + value_text(entries[0].1)
    } else {
        entries_text(entries, count - 1) + ","@ + value_text(entries[count - 1].0) + ":"@
            + value_text(entries[count - 1].1)
    }
}

/// Appends the text of a value to `out`.
pub fn write_object(o: &Object, out: &mut String)
    ensures
        final(out)@ == old(out)@ + value_text(o@),
    decreases o,
{
    match o {
        Object::Null => {
            out.append("NULL");
        },
        Object::Integer(i) => {
            let numeral = integer_to_string(*i);
            out.append(numeral.as_str());
        },
        Object::Bool(b) => {
            if *b {
                out.append("true");
            } else {
                out.append("false");
            }
        },
        Object::String(s) => {
            out.append("\"");
            out.append(s.as_str());
            out.append("\"");
        },
        Object::BuiltInFunction(name) => {
            out.append(name.as_str());
        },
        Object::Array(members) => {
            out.append("[");
            let ghost all = objects_view(*members);
            let ghost start = out@;
            let mut i: usize = 0;
            while i < members.len()
                invariant
                    i <= members.len(),
                    all == objects_view(*members),
                    decreases_to!(*o => *members),
                    out@ == start + values_text(all, i as int),
                decreases members.len() - i,
            {
                if i > 0 {
                    out.append(",");
                }
                write_object(&members[i], out);
                i = i + 1;
            }
            out.append("]");
        },
        Object::HashMap(entries) => {
            out.append("{");
            let ghost all = entries_view(*entries);
            let ghost start = out@;
            let mut i: usize = 0;
            while i < entries.len()
                invariant
                    i <= entries.len(),
                    all == entries_view(*entries),
                    decreases_to!(*o => *entries),
                    out@ == start + entries_text(all, i as int),
                decreases entries.len() - i,
            {
                if i > 0 {
                    out.append(",");
                }
                write_object(&entries[i].0, out);
                out.append(":");
                write_object(&entries[i].1, out);
                i = i + 1;
            }
            out.append("}");
        },
        Object::FunctionLiteral(parameters, body, _) => {
            out.append("fn(");
            write_names(parameters, out);
            out.append("){");
            write_block(body, out);
            out.append("}");
        },
    }
}

impl Object {
    /// Shows the value as text.
    pub fn to_string(&self) -> (text: String)
        ensures
            text@ == value_text(self@),
    {
        let mut text = String::new();
        write_object(self, &mut text);
        text
    }
}

} // verus!
