//! The built-in functions: `len` and `print`.

use crate::enviroment::found_view;
use crate::object::{clone_object, objects_view, Object, Value};
use crate::semantics::{result_view, EvalError};
use vstd::prelude::*;
use vstd::utf8::encode_utf8;

verus! {

/// The built-in function of a name, if the name is that of one.
pub open spec fn builtin_named(name: Seq<char>) -> Option<Value> {
    if name == "len"@ || name == "print"@ {
        Some(Value::BuiltInFunction(name))
    } else {
        None
    }
}

/// A length as an integer value, if it is not beyond the largest integer.
pub open spec fn length_value(length: nat) -> Result<Value, EvalError> {
    if length <= i64::MAX {
        Ok(Value::Integer(length as i64))
    } else {
        Err(EvalError::IntegerOverflow)
    }
}

/// What `len` gives: for its one argument, the number of bytes that a
/// string takes in UTF-8, or the number of members of an array.
pub open spec fn len_result(args: Seq<Value>) -> Result<Value, EvalError> {
    if args.len() != 1 {
        Err(EvalError::ArityMismatch)
    } else {
        match args[0] {
            Value::String(s) => length_value(encode_utf8(s).len()),
            Value::Array(members) => length_value(members.len()),
            _ => Err(EvalError::TypeMismatch),
        }
    }
}

/// What `print` gives: its one argument, which must be a string, an array,
/// a hash or an integer.
pub open spec fn print_result(args: Seq<Value>) -> Result<Value, EvalError> {
    if args.len() != 1 {
        Err(EvalError::ArityMismatch)
    } else {
        match args[0] {
            Value::String(_) => Ok(args[0]),
            Value::Array(_) => Ok(args[0]),
            Value::HashMap(_) => Ok(args[0]),
            Value::Integer(_) => Ok(args[0]),
            _ => Err(EvalError::TypeMismatch),
        }
    }
}

/// What the call of a built-in function gives.
pub open spec fn builtin_result(function: Value, args: Seq<Value>) -> Result<Value, EvalError> {
    match function {
        Value::BuiltInFunction(name) => if name == "len"@ {
            len_result(args)
        } else if name == "print"@ {
            print_result(args)
        } else {
            Err(EvalError::UndefinedIdentifier)
        },
        _ => Err(EvalError::TypeMismatch),
    }
}

/// Looks up a built-in function by name.
pub fn get_builtin(identifier: &str) -> (found: Option<Object>)
    ensures
        found_view(found) == builtin_named(identifier@),
{
    let name = String::from_str(identifier);
    if name == String::from_str("len") {
        Some(Object::BuiltInFunction(String::from_str("len")))
    } else if name == String::from_str("print") {
        Some(Object::BuiltInFunction(String::from_str("print")))
    } else {
        None
    }
}

/// A length as an integer value, if it is not beyond the largest integer.
fn length_object(length: usize) -> (result: Result<Object, EvalError>)
    ensures
        result_view(result) == length_value(length as nat),
{
    if length as u64 > i64::MAX as u64 {
        Err(EvalError::IntegerOverflow)
    } else {
        Ok(Object::Integer(length as i64))
    }
}

/// The built-in function `len`.
fn process_len(args: &Vec<Object>) -> (result: Result<Object, EvalError>)
    ensures
        result_view(result) == len_result(objects_view(*args)),
{
    if args.len() != 1 {
        return Err(EvalError::ArityMismatch);
    }
    let argument = &args[0];
    assert(objects_view(*args)[0] == argument@);
    match argument {
        Object::String(s) => length_object(s.as_str().as_bytes().len()),
        Object::Array(o) => length_object(o.len()),
        _ => Err(EvalError::TypeMismatch),
    }
}

/// The built-in function `print`.
fn procces_print(args: &Vec<Object>) -> (result: Result<Object, EvalError>)
    ensures
        result_view(result) == print_result(objects_view(*args)),
{
    if args.len() != 1 {
        return Err(EvalError::ArityMismatch);
    }
    let argument = &args[0];
    match argument {
        Object::String(_) => Ok(clone_object(argument)),
        Object::Array(_) => Ok(clone_object(argument)),
        Object::HashMap(_) => Ok(clone_object(argument)),
        Object::Integer(_) => Ok(clone_object(argument)),
        _ => Err(EvalError::TypeMismatch),
    }
}

/// Calls a built-in function.
pub fn eval_builtin(func_obj: &Object, args: &Vec<Object>) -> (result: Result<Object, EvalError>)
    ensures
        result_view(result) == builtin_result(func_obj@, objects_view(*args)),
{
    match func_obj {
        Object::BuiltInFunction(func_name) => {
            if *func_name == String::from_str("len") {
                process_len(args)
            } else if *func_name == String::from_str("print") {
                procces_print(args)
            } else {
                Err(EvalError::UndefinedIdentifier)
            }
        },
        _ => Err(EvalError::TypeMismatch),
    }
}

} // verus!
