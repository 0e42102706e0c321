//! [`EnvSource`]: where a variable is read from.
//!
//! Reading is deliberately not hardwired to the current process. A launcher
//! composes the environment it is *about to hand a child process* and needs to
//! check that before `exec`, not after; a diagnostic tool reads a snapshot
//! taken from elsewhere; a test wants an isolated map instead of mutating
//! global state.
use vstd::prelude::*;
use std::collections::{BTreeMap, HashMap};
use crate::text::views;
use crate::report::ascending;

verus! {

/// A set of environment variables that can be read and enumerated.
///
/// Enumeration is required because catching a misspelled name means noticing
/// a variable that is *present but undeclared*.
pub trait EnvSource {
    /// The variables, by name.
    spec fn spec_vars(&self) -> Map<Seq<char>, Seq<char>>;

    /// The raw value of `name`, if present.
    fn get(&self, name: &str) -> (r: Option<String>)
        ensures
            match r {
                Some(v) => self.spec_vars().dom().contains(name@) && self.spec_vars()[name@] == v@,
                None => !self.spec_vars().dom().contains(name@),
            },
    ;

    /// Whether `names` is in an order this source may list its names in.
    spec fn lists_in_order(&self, names: Seq<Seq<char>>) -> bool;

    /// Every variable name present in this source, each once, in an order
    /// the source allows.
    fn names(&self) -> (r: Vec<String>)
        ensures
            views(r@).no_duplicates(),
            views(r@).to_set() == self.spec_vars().dom(),
            self.lists_in_order(views(r@)),
    ;
}

/// What a `BTreeMap` of variables holds, as plain values.
pub uninterp spec fn btree_vars(m: BTreeMap<String, String>) -> Map<Seq<char>, Seq<char>>;

/// `BTreeMap::get` on a map of variables, the value cloned: the entry whose
/// key has the characters of `name`.
#[verifier::external_body]
fn btree_get(m: &BTreeMap<String, String>, name: &str) -> (r: Option<String>)
    ensures
        match r {
            Some(v) => btree_vars(*m).dom().contains(name@) && btree_vars(*m)[name@] == v@,
            None => !btree_vars(*m).dom().contains(name@),
        },
{
    BTreeMap::get(m, name).cloned()
}

/// `BTreeMap::keys` on a map of variables, each key cloned: every key once,
/// in ascending order of `String` (character by character, a proper prefix
/// first), the order `BTreeMap` keeps its keys in.
#[verifier::external_body]
fn btree_names(m: &BTreeMap<String, String>) -> (r: Vec<String>)
    ensures
        views(r@).no_duplicates(),
        views(r@).to_set() == btree_vars(*m).dom(),
        ascending(views(r@)),
{
    m.keys().cloned().collect()
}

impl EnvSource for BTreeMap<String, String> {
    open spec fn spec_vars(&self) -> Map<Seq<char>, Seq<char>> {
        btree_vars(*self)
    }

    /// A `BTreeMap` lists its names in ascending order.
    open spec fn lists_in_order(&self, names: Seq<Seq<char>>) -> bool {
        ascending(names)
    }

    fn get(&self, name: &str) -> (r: Option<String>) {
        btree_get(self, name)
    }

    fn names(&self) -> (r: Vec<String>) {
        btree_names(self)
    }
}

/// What a `HashMap` of variables holds, as plain values.
pub uninterp spec fn hash_vars(m: HashMap<String, String>) -> Map<Seq<char>, Seq<char>>;

/// `HashMap::get` on a map of variables, the value cloned: the entry whose
/// key has the characters of `name`.
#[verifier::external_body]
fn hash_get(m: &HashMap<String, String>, name: &str) -> (r: Option<String>)
    ensures
        match r {
            Some(v) => hash_vars(*m).dom().contains(name@) && hash_vars(*m)[name@] == v@,
            None => !hash_vars(*m).dom().contains(name@),
        },
{
    HashMap::get(m, name).cloned()
}

/// `HashMap::keys` on a map of variables, each key cloned: every key once,
/// in an order nothing fixes.
#[verifier::external_body]
fn hash_names(m: &HashMap<String, String>) -> (r: Vec<String>)
    ensures
        views(r@).no_duplicates(),
        views(r@).to_set() == hash_vars(*m).dom(),
{
    m.keys().cloned().collect()
}

impl EnvSource for HashMap<String, String> {
    open spec fn spec_vars(&self) -> Map<Seq<char>, Seq<char>> {
        hash_vars(*self)
    }

    /// A `HashMap` may list its names in any order.
    open spec fn lists_in_order(&self, names: Seq<Seq<char>>) -> bool {
        true
    }

    fn get(&self, name: &str) -> (r: Option<String>) {
        hash_get(self, name)
    }

    fn names(&self) -> (r: Vec<String>) {
        hash_names(self)
    }
}

} // verus!
