//! The first index at which a property holds.

use vstd::prelude::*;

verus! {

/// The least `i` with `0 <= i < n` at which `holds(i)`, if there is one.
pub open spec fn first_where(n: int, holds: spec_fn(int) -> bool) -> Option<int>
    decreases n,
{
    if n <= 0 {
        None
    } else {
        match first_where(n - 1, holds) {
            Some(i) => Some(i),
            None => if holds(n - 1) {
                Some(n - 1)
            } else {
                None
            },
        }
    }
}

/// `first_where` gives the least index at which the property holds, and
/// gives one whenever there is one.
pub proof fn lemma_first_where(n: int, holds: spec_fn(int) -> bool)
    ensures
        match first_where(n, holds) {
            Some(i) => {
                &&& 0 <= i < n
                &&& holds(i)
                &&& forall|j: int| 0 <= j < i ==> !#[trigger] holds(j)
            },
            None => forall|j: int| 0 <= j < n ==> !#[trigger] holds(j),
        },
    decreases n,
{
    if n > 0 {
        lemma_first_where(n - 1, holds);
    }
}

/// An index at which the property holds, with none before it, is the first.
pub proof fn lemma_first_where_is(n: int, holds: spec_fn(int) -> bool, i: int)
    requires
        0 <= i < n,
        holds(i),
        forall|j: int| 0 <= j < i ==> !#[trigger] holds(j),
    ensures
        first_where(n, holds) == Some(i),
{
    lemma_first_where(n, holds);
}

/// Where the property holds nowhere, there is no first index.
pub proof fn lemma_first_where_none(n: int, holds: spec_fn(int) -> bool)
    requires
        forall|j: int| 0 <= j < n ==> !#[trigger] holds(j),
    ensures
        first_where(n, holds) is None,
{
    lemma_first_where(n, holds);
}

} // verus!
