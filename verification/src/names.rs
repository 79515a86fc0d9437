//! Names of symbols and states: comparing them and finding one in a list.

use vstd::prelude::*;
use vstd::seq_lib::seq_to_set_is_finite;
use vstd::set_lib::{lemma_len_subset, lemma_subset_equality};
use vstd::string::StringSliceAdditionalSpecFns;
use vstd::utf8::encode_utf8_decode_utf8;

verus! {

/// The position of the first occurrence of `name` among `names`.
pub open spec fn position(names: Seq<Seq<char>>, name: Seq<char>) -> Option<int>
    decreases names.len(),
{
    if names.len() == 0 {
        None
    } else {
        match position(names.drop_last(), name) {
            Some(i) => Some(i),
            None => if names.last() == name {
                Some(names.len() - 1)
            } else {
                None
            },
        }
    }
}

/// `position` finds the first occurrence, and finds one whenever there is one.
pub proof fn lemma_position(names: Seq<Seq<char>>, name: Seq<char>)
    ensures
        match position(names, name) {
            Some(i) => {
                &&& 0 <= i < names.len()
                &&& names[i] == name
                &&& forall|j: int| 0 <= j < i ==> names[j] != name
            },
            None => forall|j: int| 0 <= j < names.len() ==> names[j] != name,
        },
    decreases names.len(),
{
    if names.len() > 0 {
        let front = names.drop_last();
        lemma_position(front, name);
        assert(forall|j: int| 0 <= j < front.len() ==> front[j] == names[j]);
    }
}

/// Among distinct names, each name's position is its index.
pub proof fn lemma_position_distinct(names: Seq<Seq<char>>, i: int)
    requires
        names.no_duplicates(),
        0 <= i < names.len(),
    ensures
        position(names, names[i]) == Some(i),
{
    lemma_position(names, names[i]);
}

/// A name has a position exactly when it is one of the names.
pub proof fn lemma_position_some_iff_member(names: Seq<Seq<char>>, name: Seq<char>)
    ensures
        position(names, name) is Some <==> names.to_set().contains(name),
{
    lemma_position(names, name);
    if names.to_set().contains(name) {
        let j = choose|j: int| 0 <= j < names.len() && names[j] == name;
        assert(names[j] == name);
    }
    if let Some(i) = position(names, name) {
        assert(names.contains(names[i]));
    }
}

/// Lists of names of one length, the first of distinct names that the
/// second holds too, hold the same names.
pub proof fn lemma_same_symbols(first: Seq<Seq<char>>, second: Seq<Seq<char>>)
    requires
        first.no_duplicates(),
        first.len() == second.len(),
        forall|i: int| 0 <= i < first.len() ==> second.contains(#[trigger] first[i]),
    ensures
        first.to_set() == second.to_set(),
{
    seq_to_set_is_finite(first);
    seq_to_set_is_finite(second);
    first.unique_seq_to_set();
    second.lemma_cardinality_of_set();
    assert(first.to_set().subset_of(second.to_set())) by {
        assert forall|symbol: Seq<char>|
            first.to_set().contains(symbol) implies second.to_set().contains(symbol) by {
            let i = choose|i: int| 0 <= i < first.len() && first[i] == symbol;
            assert(second.contains(first[i]));
        }
    }
    lemma_len_subset(first.to_set(), second.to_set());
    lemma_subset_equality(first.to_set(), second.to_set());
}

/// The characters of each of `names`.
pub open spec fn texts(names: Seq<String>) -> Seq<Seq<char>> {
    names.map_values(|name: String| name@)
}

/// The characters of each of `names`.
pub open spec fn str_texts(names: Seq<&str>) -> Seq<Seq<char>> {
    names.map_values(|name: &str| name@)
}

/// Whether two strings hold the same characters.
pub fn same_text(a: &str, b: &str) -> (same: bool)
    ensures
        same == (a@ == b@),
{
    let x = a.as_bytes();
    let y = b.as_bytes();
    proof {
        encode_utf8_decode_utf8(a@);
        encode_utf8_decode_utf8(b@);
    }
    if x.len() != y.len() {
        return false;
    }
    let mut i: usize = 0;
    while i < x.len()
        invariant
            i <= x.len(),
            x.len() == y.len(),
            x@ == a.spec_bytes(),
            y@ == b.spec_bytes(),
            forall|j: int| 0 <= j < i ==> x@[j] == y@[j],
        decreases x.len() - i,
    {
        if x[i] != y[i] {
            return false;
        }
        i += 1;
    }
    assert(x@ =~= y@);
    true
}

/// The index of the first of `names` that equals `name`.
pub fn find(names: &Vec<String>, name: &str) -> (found: Option<usize>)
    ensures
        match found {
            Some(i) => position(texts(names@), name@) == Some(i as int),
            None => position(texts(names@), name@) is None,
        },
{
    let mut i: usize = 0;
    while i < names.len()
        invariant
            i <= names.len(),
            forall|j: int| 0 <= j < i ==> texts(names@)[j] != name@,
        decreases names.len() - i,
    {
        assert(texts(names@)[i as int] == names@[i as int]@);
        if same_text(names[i].as_str(), name) {
            proof {
                lemma_position(texts(names@), name@);
            }
            return Some(i);
        }
        i += 1;
    }
    proof {
        lemma_position(texts(names@), name@);
    }
    None
}

} // verus!
