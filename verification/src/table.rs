//! Small tables keyed by text: each key at most once, in order of first insertion.

use vstd::prelude::*;
use crate::strings::same;

verus! {

/// What a table holds, in order.
pub open spec fn table<V: View>(entries: Seq<(String, V)>) -> Seq<(Seq<char>, V::V)> {
    Seq::new(entries.len(), |i: int| (entries[i].0@, entries[i].1@))
}

/// The keys of a table, in order.
pub open spec fn keys<V>(t: Seq<(Seq<char>, V)>) -> Seq<Seq<char>> {
    Seq::new(t.len(), |i: int| t[i].0)
}

/// No key stands twice.
pub open spec fn distinct<V>(t: Seq<(Seq<char>, V)>) -> bool {
    forall|i: int, j: int| 0 <= i < j < t.len() ==> (#[trigger] t[i]).0 != (#[trigger] t[j]).0
}

/// Where `key` stands.
pub open spec fn place<V>(t: Seq<(Seq<char>, V)>, key: Seq<char>) -> Option<int> {
    keys(t).index_of_first(key)
}

/// What stands under `key`.
pub open spec fn lookup<V>(t: Seq<(Seq<char>, V)>, key: Seq<char>) -> Option<V> {
    match place(t, key) {
        Some(i) => Some(t[i].1),
        None => None,
    }
}

/// The table with `value` under `key`.
pub open spec fn put<V>(t: Seq<(Seq<char>, V)>, key: Seq<char>, value: V) -> Seq<
    (Seq<char>, V),
> {
    match place(t, key) {
        Some(i) => t.update(i, (key, value)),
        None => t.push((key, value)),
    }
}

/// The table without `key`.
pub open spec fn without<V>(t: Seq<(Seq<char>, V)>, key: Seq<char>) -> Seq<(Seq<char>, V)> {
    match place(t, key) {
        Some(i) => t.remove(i),
        None => t,
    }
}

/// What `place` finds.
pub proof fn lemma_place<V>(t: Seq<(Seq<char>, V)>, key: Seq<char>)
    ensures
        match place(t, key) {
            Some(i) => {
                &&& 0 <= i < t.len()
                &&& t[i].0 == key
                &&& forall|k: int| 0 <= k < i ==> (#[trigger] t[k]).0 != key
            },
            None => forall|k: int| 0 <= k < t.len() ==> (#[trigger] t[k]).0 != key,
        },
{
    let ks = keys(t);
    ks.index_of_first_ensures(key);
    if place(t, key) is Some {
        let i = place(t, key)->0;
        assert forall|k: int| 0 <= k < i implies (#[trigger] t[k]).0 != key by {
            assert(ks[k] != key);
        }
    } else {
        assert forall|k: int| 0 <= k < t.len() implies (#[trigger] t[k]).0 != key by {
            assert(ks.contains(ks[k]));
        }
    }
}

/// Where a key stands first is where it is found.
pub proof fn lemma_place_is<V>(t: Seq<(Seq<char>, V)>, key: Seq<char>, at: int)
    requires
        0 <= at < t.len(),
        t[at].0 == key,
        distinct(t) || forall|k: int| 0 <= k < at ==> (#[trigger] t[k]).0 != key,
    ensures
        place(t, key) == Some(at),
        lookup(t, key) == Some(t[at].1),
{
    lemma_place(t, key);
    let ks = keys(t);
    assert(ks.contains(ks[at]));
    ks.index_of_first_ensures(key);
    let i = place(t, key)->0;
    if i < at {
        assert(t[i].0 != t[at].0);
    } else if i > at {
        assert(t[at].0 != key);
    }
}

/// Putting keeps keys apart, gives back what was put, and touches nothing else.
pub proof fn lemma_put<V>(t: Seq<(Seq<char>, V)>, key: Seq<char>, value: V)
    requires
        distinct(t),
    ensures
        distinct(put(t, key, value)),
        lookup(put(t, key, value), key) == Some(value),
        forall|k: Seq<char>| k != key ==> #[trigger] lookup(put(t, key, value), k) == lookup(t, k),
{
    let u = put(t, key, value);
    lemma_place(t, key);
    match place(t, key) {
        Some(i) => lemma_place_is(u, key, i),
        None => lemma_place_is(u, key, t.len() as int),
    }
    assert forall|k: Seq<char>| k != key implies #[trigger] lookup(u, k) == lookup(t, k) by {
        lemma_place(t, k);
        lemma_place(u, k);
        match place(t, k) {
            Some(i) => {
                assert(u[i] == t[i]);
                lemma_place_is(u, k, i);
            },
            None => {
                if place(u, k) is Some {
                    let i = place(u, k)->0;
                    assert(i < t.len() ==> t[i].0 == k);
                }
            },
        }
    }
}

/// Removing keeps keys apart, leaves nothing under the key, and touches nothing
/// else.
pub proof fn lemma_without<V>(t: Seq<(Seq<char>, V)>, key: Seq<char>)
    requires
        distinct(t),
    ensures
        distinct(without(t, key)),
        lookup(without(t, key), key) is None,
        forall|k: Seq<char>| k != key ==> #[trigger] lookup(without(t, key), k) == lookup(t, k),
{
    let u = without(t, key);
    lemma_place(t, key);
    lemma_place(u, key);
    if place(t, key) is Some {
        let at = place(t, key)->0;
        assert forall|i: int| 0 <= i < u.len() implies #[trigger] u[i] == t[if i < at {
            i
        } else {
            i + 1
        }] by {}
        if place(u, key) is Some {
            let i = place(u, key)->0;
            assert(u[i].0 == key);
        }
        assert forall|k: Seq<char>| k != key implies #[trigger] lookup(u, k) == lookup(t, k) by {
            lemma_place(t, k);
            lemma_place(u, k);
            match place(t, k) {
                Some(i) => {
                    let j = if i < at {
                        i
                    } else {
                        i - 1
                    };
                    assert(u[j] == t[i]);
                    lemma_place_is(u, k, j);
                },
                None => {
                    if place(u, k) is Some {
                        let i = place(u, k)->0;
                        assert(u[i].0 == k);
                    }
                },
            }
        }
    }
}

/// Where `key` stands.
pub fn find<V: View>(entries: &Vec<(String, V)>, key: &str) -> (r: Option<usize>)
    ensures
        match r {
            Some(i) => i < entries@.len() && place(table(entries@), key@) == Some(i as int)
                && lookup(table(entries@), key@) == Some(entries@[i as int].1@),
            None => place(table(entries@), key@) is None && lookup(table(entries@), key@) is None,
        },
{
    let ghost t = table(entries@);
    proof {
        lemma_place(t, key@);
    }
    let mut i: usize = 0;
    while i < entries.len()
        invariant
            i <= entries@.len(),
            t == table(entries@),
            forall|k: int| 0 <= k < i ==> (#[trigger] t[k]).0 != key@,
        decreases entries@.len() - i,
    {
        assert(t[i as int].0 == entries@[i as int].0@);
        if same(entries[i].0.as_str(), key) {
            proof {
                lemma_place_is(t, key@, i as int);
            }
            return Some(i);
        }
        i += 1;
    }
    None
}

/// Puts `value` under `key`.
pub fn insert<V: View>(entries: &mut Vec<(String, V)>, key: &str, value: V)
    ensures
        table(final(entries)@) == put(table(old(entries)@), key@, value@),
{
    match find(entries, key) {
        Some(i) => {
            let ghost held = entries@;
            entries.set(i, (key.to_owned(), value));
            assert(table(entries@) =~= table(held).update(i as int, (key@, value@)));
        },
        None => {
            let ghost held = entries@;
            entries.push((key.to_owned(), value));
            assert(table(entries@) =~= table(held).push((key@, value@)));
        },
    }
}

/// Takes `key` out.
pub fn remove<V: View>(entries: &mut Vec<(String, V)>, key: &str)
    ensures
        table(final(entries)@) == without(table(old(entries)@), key@),
{
    match find(entries, key) {
        Some(i) => {
            let ghost held = entries@;
            entries.remove(i);
            assert(table(entries@) =~= table(held).remove(i as int));
        },
        None => {},
    }
}

} // verus!
