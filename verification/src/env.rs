//! The variables of the template expression language.
//!
//! An environment is the list of the bindings made so far, oldest first. A
//! new binding goes at the end, and a lookup finds the oldest binding of a
//! name: a later binding of a name that is already bound is never found.
use vstd::prelude::*;

verus! {

/// The bindings of names to values, oldest first.
#[derive(Debug, Clone)]
pub struct Env<V> {
    pub data: Vec<(String, V)>,
}

/// The index of the oldest binding of `id` in `data`, if there is one.
pub open spec fn first_binding<V>(data: Seq<(String, V)>, id: Seq<char>) -> Option<int>
    decreases data.len(),
{
    if data.len() == 0 {
        None
    } else {
        match first_binding(data.drop_last(), id) {
            Some(k) => Some(k),
            None => if data.last().0@ == id {
                Some(data.len() - 1)
            } else {
                None
            },
        }
    }
}

/// What `id` is bound to in `data`.
pub open spec fn lookup<V>(data: Seq<(String, V)>, id: Seq<char>) -> Option<V> {
    match first_binding(data, id) {
        Some(k) => Some(data[k].1),
        None => None,
    }
}

/// `first_binding` finds the oldest binding of `id`: one with that name,
/// and none before it; and where it finds nothing, no binding has that name.
pub proof fn lemma_first_binding<V>(data: Seq<(String, V)>, id: Seq<char>)
    ensures
        first_binding(data, id) matches Some(k) ==> 0 <= k < data.len() && data[k].0@ == id
            && forall|m: int| 0 <= m < k ==> #[trigger] data[m].0@ != id,
        first_binding(data, id) is None ==> forall|m: int|
            0 <= m < data.len() ==> #[trigger] data[m].0@ != id,
    decreases data.len(),
{
    if data.len() > 0 {
        lemma_first_binding(data.drop_last(), id);
        assert forall|m: int| 0 <= m < data.len() - 1 implies #[trigger] data[m] == data.drop_last()[m] by {}
    }
}

impl<V> Env<V> {
    /// Binds `id` to `value`, after all earlier bindings.
    pub fn declare(&mut self, id: String, value: V)
        ensures
            final(self).data@ == old(self).data@.push((id, value)),
    {
        self.data.push((id, value));
    }

    /// The value of the oldest binding of `id`; nothing when `id` is not
    /// bound.
    pub fn get(&self, id: String) -> (r: Option<&V>)
        ensures
            match lookup(self.data@, id@) {
                Some(v) => r == Some(&v),
                None => r is None,
            },
    {
        let mut i: usize = 0;
        while i < self.data.len()
            invariant
                i <= self.data.len(),
                first_binding(self.data@.subrange(0, i as int), id@) is None,
            decreases self.data.len() - i,
        {
            if self.data[i].0 == id {
                proof {
                    lemma_prefix_binding(self.data@, id@, i as int);
                }
                return Some(&self.data[i].1);
            }
            proof {
                let p = self.data@.subrange(0, i + 1);
                assert(p.drop_last() =~= self.data@.subrange(0, i as int));
            }
            i = i + 1;
        }
        assert(self.data@.subrange(0, i as int) =~= self.data@);
        None
    }
}

/// Where no binding of `id` comes before index `i` and the one at `i` has
/// that name, `i` is the oldest binding of `id`.
proof fn lemma_prefix_binding<V>(data: Seq<(String, V)>, id: Seq<char>, i: int)
    requires
        0 <= i < data.len(),
        first_binding(data.subrange(0, i), id) is None,
        data[i].0@ == id,
    ensures
        first_binding(data, id) == Some(i),
{
    lemma_first_binding(data.subrange(0, i), id);
    lemma_first_binding(data, id);
    match first_binding(data, id) {
        Some(k) => {
            if k < i {
                assert(data.subrange(0, i)[k] == data[k]);
            }
        },
        None => {},
    }
}

/// Binding a name keeps what every other name, and every name bound
/// before, stands for; a name that was not bound then stands for the new
/// value.
pub proof fn law_declare_keeps_older_bindings<V>(data: Seq<(String, V)>, id: Seq<char>, name: String, value: V)
    ensures
        lookup(data.push((name, value)), id) == if lookup(data, id) is Some || name@ != id {
            lookup(data, id)
        } else {
            Some(value)
        },
{
    let d2 = data.push((name, value));
    assert(d2.drop_last() =~= data);
    lemma_first_binding(data, id);
    if let Some(k) = first_binding(data, id) {
        assert(d2[k] == data[k]);
    }
}

} // verus!
