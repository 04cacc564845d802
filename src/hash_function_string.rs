//! A readable stand-in for the digest primitive over strings: the leaf hash of
//! a string is the string twice, the node hash of two strings their
//! concatenation. Trees over it show their structure in their digests.
use vstd::prelude::*;
use vstd::string::StringExecFns;

verus! {

/// The leaf hash of `d`: `d` followed by itself.
pub open spec fn leaf_string(d: Seq<char>) -> Seq<char> {
    d + d
}

/// The node hash of `a` and `b`: `a` followed by `b`.
pub open spec fn node_string(a: Seq<char>, b: Seq<char>) -> Seq<char> {
    a + b
}

pub open spec fn leaf_string_fn() -> spec_fn(Seq<char>) -> Seq<char> {
    |d: Seq<char>| leaf_string(d)
}

pub open spec fn node_string_fn() -> spec_fn(Seq<char>, Seq<char>) -> Seq<char> {
    |a: Seq<char>, b: Seq<char>| node_string(a, b)
}

/// Hashes a leaf: the value twice.
pub fn hash_leaf_string(value: &String) -> (r: String)
    ensures
        r@ == leaf_string(value@),
{
    let mut result = value.clone();
    result.append(value.as_str());
    result
}

/// Hashes a pair: the left value followed by the right one.
pub fn hash_node_string(left: &String, right: &String) -> (r: String)
    ensures
        r@ == node_string(left@, right@),
{
    let mut result = left.clone();
    result.append(right.as_str());
    result
}

} // verus!
