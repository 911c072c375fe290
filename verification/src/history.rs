//! One vector for each client, kept as a list of entries.
use vstd::prelude::*;
use crate::float::binary32::Binary32;

verus! {

/// A vector for each client.
pub type History = Map<Seq<char>, Seq<Binary32>>;

/// The entries of a history list as a map.
pub open spec fn history_of<T>(entries: Seq<(String, Vec<T>)>) -> Map<Seq<char>, Seq<T>>
    decreases entries.len(),
{
    if entries.len() == 0 {
        Map::empty()
    } else {
        history_of(entries.drop_last()).insert(entries.last().0@, entries.last().1@)
    }
}

/// The last entry of a client is the one that counts.
pub proof fn lemma_history_lookup<T>(entries: Seq<(String, Vec<T>)>, k: int, id: Seq<char>)
    requires
        0 <= k <= entries.len(),
        forall|j: int| k <= j < entries.len() ==> (#[trigger] entries[j]).0@ != id,
        k > 0 ==> entries[k - 1].0@ == id,
    ensures
        history_of(entries).contains_key(id) == (k > 0),
        k > 0 ==> history_of(entries)[id] == entries[k - 1].1@,
    decreases entries.len(),
{
    if k < entries.len() {
        let front = entries.drop_last();
        assert(entries[entries.len() - 1].0@ != id);
        lemma_history_lookup(front, k, id);
    }
}

/// Replacing a client's last entry replaces its history.
pub proof fn lemma_history_update<T>(
    entries: Seq<(String, Vec<T>)>,
    i: int,
    entry: (String, Vec<T>),
)
    requires
        0 <= i < entries.len(),
        entries[i].0@ == entry.0@,
        forall|j: int| i < j < entries.len() ==> (#[trigger] entries[j]).0@ != entry.0@,
    ensures
        history_of(entries.update(i, entry)) == history_of(entries).insert(entry.0@, entry.1@),
    decreases entries.len(),
{
    let after = entries.update(i, entry);
    let front = entries.drop_last();
    if i == entries.len() - 1 {
        assert(after.drop_last() =~= front);
        assert(history_of(after) =~= history_of(entries).insert(entry.0@, entry.1@));
    } else {
        lemma_history_update(front, i, entry);
        assert(after.drop_last() =~= front.update(i, entry));
        assert(entries[entries.len() - 1].0@ != entry.0@);
        assert(history_of(after) =~= history_of(entries).insert(entry.0@, entry.1@));
    }
}

/// Finds a client's vector.
pub fn find_entry<'a, T>(entries: &'a Vec<(String, Vec<T>)>, id: &String) -> (r: Option<
    &'a Vec<T>,
>)
    ensures
        r is Some <==> history_of(entries@).contains_key(id@),
        r is Some ==> r->0@ == history_of(entries@)[id@],
{
    let mut k: usize = entries.len();
    while k > 0
        invariant
            k <= entries.len(),
            forall|j: int| k <= j < entries.len() ==> (#[trigger] entries@[j]).0@ != id@,
        decreases k,
    {
        if entries[k - 1].0 == *id {
            proof {
                lemma_history_lookup(entries@, k as int, id@);
            }
            return Some(&entries[k - 1].1);
        }
        k = k - 1;
    }
    proof {
        lemma_history_lookup(entries@, 0, id@);
    }
    None
}

} // verus!
