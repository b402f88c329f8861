//! The state model: an ordered mapping from fact names to `Datum` values.

use vstd::prelude::*;

use crate::datum::Datum;

verus! {

/// The mathematical model of a state: the facts in insertion order, each a
/// fact name (viewed as a character sequence) paired with its value.
pub type StateFacts = Seq<(Seq<char>, Datum)>;

/// Index of the first fact named `key` in `st`, or `-1` when absent.
pub open spec fn fact_index(st: StateFacts, key: Seq<char>) -> int
    decreases st.len(),
{
    if st.len() == 0 {
        -1
    } else if st[0].0 == key {
        0
    } else {
        let rest = fact_index(st.drop_first(), key);
        if rest < 0 {
            -1
        } else {
            rest + 1
        }
    }
}

/// Whether `st` holds a fact named `key`.
pub open spec fn has_fact(st: StateFacts, key: Seq<char>) -> bool {
    fact_index(st, key) >= 0
}

/// The value of the first fact named `key`, when present.
pub open spec fn find_fact(st: StateFacts, key: Seq<char>) -> Option<Datum> {
    if has_fact(st, key) {
        Some(st[fact_index(st, key)].1)
    } else {
        None
    }
}

/// `st` with the first fact named `key` overwritten to `value`; when absent
/// the pair `(key, value)` is appended.
pub open spec fn set_fact(st: StateFacts, key: Seq<char>, value: Datum) -> StateFacts {
    if has_fact(st, key) {
        st.update(fact_index(st, key), (st[fact_index(st, key)].0, value))
    } else {
        st.push((key, value))
    }
}

/// `fact_index` lands on a fact with the sought name, and on the first one.
pub proof fn lemma_fact_index(st: StateFacts, key: Seq<char>)
    ensures
        fact_index(st, key) >= 0 ==> fact_index(st, key) < st.len() && st[fact_index(st, key)].0
            == key,
        fact_index(st, key) < 0 ==> fact_index(st, key) == -1,
        forall|j: int| 0 <= j < st.len() && st[j].0 == key ==> fact_index(st, key) >= 0,
        forall|j: int| 0 <= j < fact_index(st, key) ==> st[j].0 != key,
    decreases st.len(),
{
    if st.len() > 0 && st[0].0 != key {
        lemma_fact_index(st.drop_first(), key);
        assert(forall|j: int|
            1 <= j < st.len() ==> st[j] == st.drop_first()[j - 1]);
    }
}

/// One agent's complete relevant world view at one instant: an ordered
/// mapping from fact name to value, owned as a plain value.
#[derive(Debug, PartialEq, Hash)]
pub struct LocalState {
    /// The facts, in insertion order; at most one entry per name is ever
    /// created through this type's own operations.
    pub data: Vec<(String, Datum)>,
}

impl View for LocalState {
    type V = StateFacts;

    open spec fn view(&self) -> StateFacts {
        self.data@.map_values(|p: (String, Datum)| (p.0@, p.1))
    }
}

impl Clone for LocalState {
    /// A full, independent copy with the same facts.
    fn clone(&self) -> (result: Self)
        ensures
            result@ == self@,
    {
        let mut data: Vec<(String, Datum)> = Vec::new();
        let mut i: usize = 0;
        while i < self.data.len()
            invariant
                i <= self.data.len(),
                data@.len() == i as int,
                forall|j: int| 0 <= j < i as int ==> data@[j] == self.data@[j],
            decreases self.data.len() - i,
        {
            let entry = (self.data[i].0.clone(), self.data[i].1);
            data.push(entry);
            i = i + 1;
        }
        let result = LocalState { data };
        proof {
            assert(result.data@ =~= self.data@);
        }
        result
    }
}

impl LocalState {
    /// An empty state, holding no facts.
    pub fn new() -> (result: Self)
        ensures
            result@ == Seq::<(Seq<char>, Datum)>::empty(),
    {
        let result = LocalState { data: Vec::new() };
        proof {
            assert(result@ =~= Seq::<(Seq<char>, Datum)>::empty());
        }
        result
    }

    /// Builder: `self` with the fact `key` set to `value` (inserted when
    /// absent, overwritten when present).
    pub fn with_datum(self, key: &str, value: Datum) -> (result: Self)
        ensures
            result@ == set_fact(self@, key@, value),
    {
        let mut s = self;
        let ghost old_view = s@;
        match state_index_of(&s, key) {
            Some(i) => {
                let name = s.data[i].0.clone();
                s.data.set(i, (name, value));
                proof {
                    assert(s@ =~= set_fact(old_view, key@, value));
                }
            },
            None => {
                s.data.push((key.to_owned(), value));
                proof {
                    assert(s@ =~= set_fact(old_view, key@, value));
                }
            },
        }
        s
    }

    /// Lookup by name: the value of the fact `key`, when present.
    pub fn get(&self, key: &str) -> (result: Option<Datum>)
        ensures
            result == find_fact(self@, key@),
    {
        match state_index_of(self, key) {
            Some(i) => Some(self.data[i].1),
            None => None,
        }
    }
}

/// Position of the first fact named `key` in `state`, when present.
pub fn state_index_of(state: &LocalState, key: &str) -> (result: Option<usize>)
    ensures
        match result {
            Some(i) => fact_index(state@, key@) == i as int && i < state.data@.len(),
            None => !has_fact(state@, key@),
        },
{
    proof {
        lemma_fact_index(state@, key@);
    }
    let key_string: String = key.to_owned();
    let mut i: usize = 0;
    while i < state.data.len()
        invariant
            i <= state.data.len(),
            state@.len() == state.data@.len(),
            forall|j: int| 0 <= j < i as int ==> state@[j].0 != key@,
            fact_index(state@, key@) >= 0 ==> fact_index(state@, key@) < state@.len()
                && state@[fact_index(state@, key@)].0 == key@,
            forall|j: int| 0 <= j < state@.len() && state@[j].0 == key@ ==> fact_index(
                state@,
                key@,
            ) >= 0,
            forall|j: int| 0 <= j < fact_index(state@, key@) ==> state@[j].0 != key@,
            key_string@ == key@,
        decreases state.data.len() - i,
    {
        if state.data[i].0.eq(&key_string) {
            proof {
                assert(state@[i as int] == (state.data@[i as int].0@, state.data@[i as int].1));
                assert(state@[i as int].0 == key@);
                lemma_fact_index(state@, key@);
                let fi = fact_index(state@, key@);
                assert(fi >= 0);
                if fi < i as int {
                    assert(state@[fi].0 != key@);
                    assert(false);
                }
                if fi > i as int {
                    assert(state@[i as int].0 != key@);
                    assert(false);
                }
            }
            return Some(i);
        }
        i = i + 1;
    }
    None
}

} // verus!
