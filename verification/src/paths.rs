//! Where the app's directories are: an environment override when it is set and
//! non-empty, else a subdirectory of the cache directory.

use vstd::prelude::*;
use crate::marks::opt_string;
use crate::text::{chars_of, push_str, string_of};

verus! {

/// The override when it is set and non-empty, else the default.
pub open spec fn env_or_spec(value: Option<Seq<char>>, default: Option<Seq<char>>) -> Option<Seq<char>> {
    match value {
        Some(v) => if v.len() > 0 {
            Some(v)
        } else {
            default
        },
        None => default,
    }
}

/// An environment override when it is set and non-empty, else the default.
pub fn env_or(value: Option<String>, default: Option<String>) -> (r: Option<String>)
    ensures
        opt_string(r) == env_or_spec(opt_string(value), opt_string(default)),
{
    match value {
        Some(v) => if v.as_str().unicode_len() > 0 {
            Some(v)
        } else {
            default
        },
        None => default,
    }
}

/// `sub` inside `cache`, or nothing without a cache directory.
pub open spec fn inside_spec(cache: Option<Seq<char>>, sub: Seq<char>) -> Option<Seq<char>> {
    match cache {
        Some(c) => Some(c + seq!['/'] + sub),
        None => None,
    }
}

/// A directory: the override when set and non-empty, else `sub` inside the cache
/// directory; with neither, none.
pub fn resolve_dir(value: Option<String>, cache: Option<String>, sub: &str) -> (r: Option<String>)
    ensures
        opt_string(r) == env_or_spec(opt_string(value), inside_spec(opt_string(cache), sub@)),
{
    let default = match cache {
        Some(c) => {
            let mut out = chars_of(c.as_str());
            out.push('/');
            push_str(&mut out, sub);
            Some(string_of(&out))
        },
        None => None,
    };
    env_or(value, default)
}

} // verus!
