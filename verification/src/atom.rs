//! Interned strings.
//!
//! The names of attributes are interned with the crate `string_cache`: an
//! atom stands for a string, and is small and cheap to copy. What this crate
//! knows of atoms is stated here and not proved.

use string_cache::DefaultAtom;
use vstd::prelude::*;

verus! {

/// `string_cache::Atom`: an interned string.
#[verifier::external_type_specification]
#[verifier::external_body]
#[verifier::reject_recursive_types(Static)]
pub struct ExAtom<Static>(string_cache::Atom<Static>);

/// `string_cache::EmptyStaticAtomSet`: the set of atoms known at compile time
/// that holds none but the empty string.
#[verifier::external_type_specification]
#[verifier::external_body]
pub struct ExEmptyStaticAtomSet(string_cache::EmptyStaticAtomSet);

/// The string that an atom stands for.
pub uninterp spec fn atom_text(atom: DefaultAtom) -> Seq<char>;

/// `DefaultAtom::from(&str)`: the atom of a string stands for that string.
#[verifier::external_body]
pub(crate) fn intern(text: &str) -> (atom: DefaultAtom)
    ensures
        atom_text(atom) == text@,
{
    DefaultAtom::from(text)
}

/// `Deref::deref` of an atom: the string that the atom stands for.
#[verifier::external_body]
pub(crate) fn atom_str(atom: &DefaultAtom) -> (text: &str)
    ensures
        text@ == atom_text(*atom),
{
    std::ops::Deref::deref(atom)
}

} // verus!
