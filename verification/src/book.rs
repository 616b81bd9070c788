//! Books of definitions.

use std::collections::{BTreeMap, HashMap};

use vstd::prelude::*;
use vstd::string::*;

use crate::name::{Name, Val};
use crate::term::{DefId, Term, TermView};

verus! {

broadcast use {
    vstd::std_specs::btree::group_btree_axioms,
    vstd::std_specs::hash::group_hash_axioms,
};

/// A pattern that a rule matches one of its arguments against.
#[derive(Debug)]
pub enum RulePat {
    /// Any argument, bound to a name.
    Var(Name),
    /// A constructor and patterns for its fields.
    Ctr(Name, Vec<RulePat>),
    /// A native number.
    Num(Val),
}

/// A rule of a definition: patterns for its arguments, and its body.
#[derive(Debug)]
pub struct Rule {
    pub pats: Vec<RulePat>,
    pub body: Term,
}

/// A definition, given by its rules.
#[derive(Debug)]
pub struct Definition {
    pub rules: Vec<Rule>,
}

/// The names of definitions.
#[derive(Debug)]
pub struct DefNames {
    pub id_to_name: HashMap<DefId, Name>,
}

/// A book of definitions.
#[derive(Debug)]
pub struct Book {
    pub def_names: DefNames,
    pub defs: BTreeMap<DefId, Definition>,
}

/// What a book denotes: the names of definitions, and the bodies of those definitions that
/// have a single rule without patterns.
pub struct BookView {
    pub names: Map<DefId, Seq<char>>,
    pub bodies: Map<DefId, TermView>,
}

impl BookView {
    /// Whether a definition was generated by the compiler: its name holds a `$`.
    pub open spec fn is_generated(self, def_id: DefId) -> bool {
        self.names.contains_key(def_id) && self.names[def_id].contains('$')
    }
}

impl Definition {
    /// Whether the definition has a single rule, and that rule has no patterns.
    pub open spec fn is_plain(&self) -> bool {
        self.rules@.len() == 1 && self.rules@[0].pats@.len() == 0
    }
}

impl View for Book {
    type V = BookView;

    open spec fn view(&self) -> BookView {
        BookView {
            names: self.def_names.id_to_name@.map_values(|name: Name| name@),
            bodies: Map::new(
                |def_id: DefId| self.defs@.contains_key(def_id) && self.defs@[def_id].is_plain(),
                |def_id: DefId| self.defs@[def_id].rules@[0].body@,
            ),
        }
    }
}

impl DefNames {
    /// The name of a definition.
    pub fn name(&self, def_id: &DefId) -> (res: Option<&Name>)
        ensures
            res == (if self.id_to_name@.contains_key(*def_id) {
                Some(&self.id_to_name@[*def_id])
            } else {
                None
            }),
    {
        self.id_to_name.get(def_id)
    }
}

/// Whether `spelling` holds the character `wanted`.
fn holds_char(spelling: &str, wanted: char) -> (res: bool)
    ensures
        res == spelling@.contains(wanted),
{
    for c in chars: spelling.chars()
        invariant
            chars.seq() == spelling@,
            forall|i: int| 0 <= i < chars.index() ==> spelling@[i] != wanted,
    {
        if c == wanted {
            return true;
        }
    }
    false
}

impl Book {
    /// Whether a definition was generated by the compiler: its name holds a `$`.
    pub fn is_generated_def(&self, def_id: DefId) -> (res: bool)
        ensures
            res == self@.is_generated(def_id),
            res <==> self.def_names.id_to_name@.contains_key(def_id) && exists|i: int|
                0 <= i < self.def_names.id_to_name@[def_id].0@.len()
                    && #[trigger] self.def_names.id_to_name@[def_id].0@[i] == '$',
    {
        match self.def_names.name(&def_id) {
            Some(name) => holds_char(name.0.as_str(), '$'),
            None => false,
        }
    }

    /// The body of a definition that has a single rule without patterns.
    pub fn plain_body(&self, def_id: DefId) -> (res: &Term)
        requires
            self@.bodies.contains_key(def_id),
        ensures
            res@ == self@.bodies[def_id],
            *res == self.defs@[def_id].rules@[0].body,
    {
        let def = self.defs.get(&def_id).unwrap();
        &def.rules[0].body
    }
}

} // verus!
