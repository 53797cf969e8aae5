//! Names: their comparison, and lookup by name in ordered lists.

use vstd::prelude::*;

verus! {

/// Compares two string slices with `str`'s own `==`.
///
/// Trusted: `str` equality compares the two slices byte for byte, which for
/// valid UTF-8 is the same as comparing them character for character.
#[verifier::external_body]
pub(crate) fn same_text(a: &str, b: &str) -> (same: bool)
    ensures
        same == (a@ == b@),
{
    a == b
}

/// The views of a sequence of names, element by element.
pub open spec fn names_view(names: Seq<String>) -> Seq<Seq<char>> {
    Seq::new(names.len(), |i: int| names[i]@)
}

/// Whether no name occurs twice in `names`.
pub open spec fn names_distinct(names: Seq<String>) -> bool {
    names_view(names).no_duplicates()
}

/// What the first entry called `name` holds, if there is such an entry.
pub open spec fn first_named<T>(entries: Seq<(Seq<char>, T)>, name: Seq<char>) -> Option<T>
    decreases entries.len(),
{
    if entries.len() == 0 {
        None
    } else if entries[0].0 == name {
        Some(entries[0].1)
    } else {
        first_named(entries.drop_first(), name)
    }
}

/// What a lookup by name finds is one of the entries, under that name; and
/// it finds nothing only where no entry has the name.
pub proof fn lemma_first_named<T>(entries: Seq<(Seq<char>, T)>, name: Seq<char>)
    ensures
        match first_named(entries, name) {
            Some(held) => exists|i: int|
                0 <= i < entries.len() && #[trigger] entries[i] == (name, held),
            None => forall|i: int| 0 <= i < entries.len() ==> (#[trigger] entries[i]).0 != name,
        },
    decreases entries.len(),
{
    if entries.len() > 0 && entries[0].0 != name {
        let rest = entries.drop_first();
        lemma_first_named(rest, name);
        match first_named(rest, name) {
            Some(held) => {
                let i = choose|i: int| 0 <= i < rest.len() && #[trigger] rest[i] == (name, held);
                assert(entries[i + 1] == (name, held));
            },
            None => {
                assert forall|i: int| 0 <= i < entries.len() implies (#[trigger] entries[i]).0
                    != name by {
                    if i > 0 {
                        assert(rest[i - 1].0 != name);
                    }
                }
            },
        }
    } else if entries.len() > 0 {
        assert(entries[0] == (name, entries[0].1));
    }
}

} // verus!
