//! Variable names, and the names generated for numbered variables.

use vstd::prelude::*;
use vstd::string::*;

verus! {

/// Values of native numbers. Variable ids and definition ids are drawn from them too.
pub type Val = u32;

/// The name of a variable or of a definition.
#[derive(Debug, PartialEq, Eq, Hash)]
pub struct Name(pub String);

impl View for Name {
    type V = Seq<char>;

    open spec fn view(&self) -> Seq<char> {
        self.0@
    }
}

impl Clone for Name {
    fn clone(&self) -> (res: Self)
        ensures
            res == *self,
    {
        Name(self.0.clone())
    }
}

impl Name {
    /// The name with the given spelling.
    pub fn new(spelling: &str) -> (res: Name)
        ensures
            res@ == spelling@,
    {
        Name(spelling.to_owned())
    }

    /// Whether two names are spelled alike.
    pub fn same(&self, other: &Name) -> (res: bool)
        ensures
            res == (self@ == other@),
    {
        self.0 == other.0
    }
}

/// What an optional name denotes.
pub open spec fn optional_name(name: Option<Name>) -> Option<Seq<char>> {
    match name {
        Some(name) => Some(name@),
        None => None,
    }
}

/// A copy of an optional name.
pub fn clone_optional(name: &Option<Name>) -> (res: Option<Name>)
    ensures
        res == *name,
{
    match name {
        Some(name) => Some(name.clone()),
        None => None,
    }
}

/// The letter that stands for the digit `digit` in base 26.
pub open spec fn letter(digit: nat) -> char {
    (('a' as nat) + digit) as char
}

/// The name of the variable number `id`: its digits in base 26, the lowest first, as letters
/// from `a` on.
pub open spec fn id_name(id: nat) -> Seq<char>
    decreases id,
{
    if id < 26 {
        seq![letter(id)]
    } else {
        seq![letter(id % 26)] + id_name(id / 26)
    }
}

/// The number that a generated name stands for.
pub open spec fn name_id(name: Seq<char>) -> int
    decreases name.len(),
{
    if name.len() == 0 {
        0
    } else {
        (name[0] as int - 'a' as int) + 26 * name_id(name.skip(1))
    }
}

/// `name_id` recovers the id from which a name was generated.
pub proof fn law_name_id_inverts_id_name(id: nat)
    ensures
        name_id(id_name(id)) == id,
    decreases id,
{
    let name = id_name(id);
    assert(name[0] == letter(id % 26));
    if id < 26 {
        assert(name.skip(1) =~= Seq::<char>::empty());
        assert(name_id(name.skip(1)) == 0);
    } else {
        assert(name.skip(1) =~= id_name(id / 26));
        law_name_id_inverts_id_name(id / 26);
    }
}

/// Different ids have different names.
pub proof fn law_id_names_are_distinct(a: nat, b: nat)
    requires
        id_name(a) == id_name(b),
    ensures
        a == b,
{
    law_name_id_inverts_id_name(a);
    law_name_id_inverts_id_name(b);
}

/// Names the variable number `id`.
pub fn var_id_to_name(id: Val) -> (res: Name)
    ensures
        res@ == id_name(id as nat),
{
    let letters = "abcdefghijklmnopqrstuvwxyz";
    proof {
        reveal_strlit("abcdefghijklmnopqrstuvwxyz");
    }
    let mut name = String::new();
    let mut rest: Val = id;
    assert(name@ + id_name(rest as nat) =~= id_name(id as nat));
    while rest >= 26
        invariant
            letters@ == "abcdefghijklmnopqrstuvwxyz"@,
            name@ + id_name(rest as nat) == id_name(id as nat),
        decreases rest,
    {
        proof {
            reveal_strlit("abcdefghijklmnopqrstuvwxyz");
        }
        let digit: usize = (rest % 26) as usize;
        let ghost before = name@;
        name.append(letters.substring_ascii(digit, digit + 1));
        assert(name@ =~= before + seq![letter(rest as nat % 26)]);
        assert(name@ + id_name(rest as nat / 26) =~= before + id_name(rest as nat));
        rest = rest / 26;
    }
    proof {
        reveal_strlit("abcdefghijklmnopqrstuvwxyz");
    }
    let digit: usize = rest as usize;
    let ghost before = name@;
    name.append(letters.substring_ascii(digit, digit + 1));
    assert(name@ =~= before + seq![letter(rest as nat)]);
    Name(name)
}

} // verus!
