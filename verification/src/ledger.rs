//! The substitution ledger: an insertion-ordered list of
//! (placeholder, value) pairs with lookup by value.
//!
//! A value is recorded under exactly one placeholder per call; every later
//! occurrence of the same value reuses that placeholder.

use vstd::prelude::*;
use crate::ledger_view;

verus! {

/// The placeholder of the first entry recorded for the value `v`.
pub open spec fn find_value(items: Seq<(Seq<char>, Seq<char>)>, v: Seq<char>) -> Option<
    Seq<char>,
>
    decreases items.len(),
{
    if items.len() == 0 {
        None
    } else if items[0].1 == v {
        Some(items[0].0)
    } else {
        find_value(items.drop_first(), v)
    }
}

/// No two ledger entries record the same value.
pub open spec fn values_distinct(items: Seq<(Seq<char>, Seq<char>)>) -> bool {
    forall|i: int, j: int| 0 <= i < j < items.len() ==> items[i].1 != items[j].1
}

/// No two ledger entries use the same placeholder.
pub open spec fn keys_distinct(items: Seq<(Seq<char>, Seq<char>)>) -> bool {
    forall|i: int, j: int| 0 <= i < j < items.len() ==> items[i].0 != items[j].0
}

pub proof fn lemma_find_value_first(items: Seq<(Seq<char>, Seq<char>)>, v: Seq<char>, j: int)
    requires
        0 <= j < items.len(),
        items[j].1 == v,
        forall|i: int| 0 <= i < j ==> items[i].1 != v,
    ensures
        find_value(items, v) == Some(items[j].0),
    decreases j,
{
    if j > 0 {
        lemma_find_value_first(items.drop_first(), v, j - 1);
    }
}

pub proof fn lemma_find_value_none(items: Seq<(Seq<char>, Seq<char>)>, v: Seq<char>)
    requires
        forall|i: int| 0 <= i < items.len() ==> items[i].1 != v,
    ensures
        find_value(items, v) is None,
    decreases items.len(),
{
    if items.len() > 0 {
        lemma_find_value_none(items.drop_first(), v);
    }
}

/// A failed lookup means no entry at all records the value.
pub proof fn lemma_find_value_none_inv(items: Seq<(Seq<char>, Seq<char>)>, v: Seq<char>)
    requires
        find_value(items, v) is None,
    ensures
        forall|i: int| 0 <= i < items.len() ==> items[i].1 != v,
    decreases items.len(),
{
    if items.len() > 0 {
        lemma_find_value_none_inv(items.drop_first(), v);
        assert(forall|i: int| 0 < i < items.len() ==> items[i] == items.drop_first()[i - 1]);
    }
}

/// The entry behind a successful lookup: its placeholder is the lookup's
/// result and its value is the one looked up.
pub proof fn lemma_find_value_entry(items: Seq<(Seq<char>, Seq<char>)>, v: Seq<char>) -> (j: int)
    requires
        find_value(items, v) is Some,
    ensures
        0 <= j < items.len(),
        items[j] == (find_value(items, v).unwrap(), v),
    decreases items.len(),
{
    if items[0].1 == v {
        assert(items[0] == (find_value(items, v).unwrap(), v));
        0
    } else {
        let j = lemma_find_value_entry(items.drop_first(), v) + 1;
        assert(items.drop_first()[j - 1] == items[j]);
        j
    }
}

/// Appending entries never changes an earlier value's placeholder: a
/// lookup that succeeds on the ledger still returns the same placeholder
/// on any extension of it.
pub proof fn lemma_find_value_extend(
    items: Seq<(Seq<char>, Seq<char>)>,
    items2: Seq<(Seq<char>, Seq<char>)>,
    v: Seq<char>,
)
    requires
        items2.len() >= items.len(),
        forall|i: int| 0 <= i < items.len() ==> items2[i] == items[i],
        find_value(items, v) is Some,
    ensures
        find_value(items2, v) == find_value(items, v),
    decreases items.len(),
{
    if items[0].1 == v {
        assert(items2[0] == items[0]);
    } else {
        assert(items2[0] == items[0]);
        assert(forall|i: int|
            0 <= i < items.drop_first().len() ==> items.drop_first()[i] == items[i + 1]);
        assert(forall|i: int|
            0 <= i < items2.drop_first().len() ==> items2.drop_first()[i] == items2[i + 1]);
        lemma_find_value_extend(items.drop_first(), items2.drop_first(), v);
    }
}

/// Recording a fresh value keeps the recorded values distinct.
pub proof fn lemma_push_preserves_distinct(
    items: Seq<(Seq<char>, Seq<char>)>,
    key: Seq<char>,
    v: Seq<char>,
)
    requires
        values_distinct(items),
        find_value(items, v) is None,
    ensures
        values_distinct(items.push((key, v))),
{
    lemma_find_value_none_inv(items, v);
    let items2 = items.push((key, v));
    assert forall|i: int, j: int| 0 <= i < j < items2.len() implies items2[i].1 != items2[j].1 by {
        if j < items.len() {
            assert(items2[i] == items[i] && items2[j] == items[j]);
        } else {
            assert(items2[i] == items[i] && items2[j] == (key, v));
        }
    }
}

/// The placeholder recorded for the first entry whose value equals `v`.
pub fn find_by_value(items: &Vec<(String, String)>, v: &String) -> (r: Option<String>)
    ensures
        match r {
            Some(k) => find_value(ledger_view(items@), v@) == Some(k@),
            None => find_value(ledger_view(items@), v@) is None,
        },
{
    let ghost lv = ledger_view(items@);
    let mut i: usize = 0;
    while i < items.len()
        invariant
            lv == ledger_view(items@),
            lv.len() == items@.len(),
            i <= items@.len(),
            forall|t: int| 0 <= t < i ==> lv[t].1 != v@,
        decreases items@.len() - i,
    {
        proof {
            assert(lv[i as int] == (items@[i as int].0@, items@[i as int].1@));
        }
        if items[i].1 == *v {
            proof {
                lemma_find_value_first(lv, v@, i as int);
            }
            return Some(items[i].0.clone());
        }
        i = i + 1;
    }
    proof {
        lemma_find_value_none(lv, v@);
    }
    None
}

} // verus!
