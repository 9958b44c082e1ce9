use vstd::prelude::*;

use crate::paths::SourcePath;

verus! {

// ---------------------------------------------------------------------------
// An association list keyed by `SourcePath`, read as a `Map` from key view
// to deep value view. The store keeps its documents and its memo tables in
// this form; the lemmas below let every operation be stated over the map.
// ---------------------------------------------------------------------------

/// The map an entry list denotes: later entries win, though the store only
/// ever keeps lists whose keys are distinct.
pub open spec fn assoc_map<V: DeepView>(s: Seq<(SourcePath, V)>) -> Map<Seq<char>, V::V>
    decreases s.len(),
{
    if s.len() == 0 {
        Map::empty()
    } else {
        assoc_map(s.drop_last()).insert(s.last().0@, s.last().1.deep_view())
    }
}

/// No two entries share a key.
pub open spec fn unique_keys<V>(s: Seq<(SourcePath, V)>) -> bool {
    forall|i: int, j: int| 0 <= i < j < s.len() ==> s[i].0@ != s[j].0@
}

/// A key is in the map exactly when some entry carries it.
pub proof fn lemma_assoc_map_domain<V: DeepView>(s: Seq<(SourcePath, V)>, k: Seq<char>)
    ensures
        assoc_map(s).contains_key(k) <==> exists|i: int| 0 <= i < s.len() && s[i].0@ == k,
    decreases s.len(),
{
    if s.len() > 0 {
        lemma_assoc_map_domain(s.drop_last(), k);
        if assoc_map(s).contains_key(k) && s.last().0@ != k {
            let i = choose|i: int| 0 <= i < s.drop_last().len() && s.drop_last()[i].0@ == k;
            assert(s[i].0@ == k);
        }
        if exists|i: int| 0 <= i < s.len() && s[i].0@ == k {
            let i = choose|i: int| 0 <= i < s.len() && s[i].0@ == k;
            if i < s.len() - 1 {
                assert(s.drop_last()[i].0@ == k);
            }
        }
    }
}

/// In a list with distinct keys, the entry carrying a key gives its value.
pub proof fn lemma_assoc_map_index<V: DeepView>(s: Seq<(SourcePath, V)>, i: int)
    requires
        unique_keys(s),
        0 <= i < s.len(),
    ensures
        assoc_map(s).contains_key(s[i].0@),
        assoc_map(s)[s[i].0@] == s[i].1.deep_view(),
    decreases s.len(),
{
    if i == s.len() - 1 {
    } else {
        lemma_assoc_map_index(s.drop_last(), i);
        assert(s.drop_last()[i] == s[i]);
        assert(s.last().0@ != s[i].0@);
    }
}

/// Removing the entry at `i` removes exactly its key from the map.
pub proof fn lemma_assoc_map_remove<V: DeepView>(s: Seq<(SourcePath, V)>, i: int)
    requires
        unique_keys(s),
        0 <= i < s.len(),
    ensures
        unique_keys(s.remove(i)),
        assoc_map(s.remove(i)) == assoc_map(s).remove(s[i].0@),
    decreases s.len(),
{
    assert(unique_keys(s.remove(i))) by {
        assert forall|a: int, b: int| 0 <= a < b < s.remove(i).len() implies s.remove(i)[a].0@
            != s.remove(i)[b].0@ by {
            assert(s.remove(i)[a] == if a < i {
                s[a]
            } else {
                s[a + 1]
            });
            assert(s.remove(i)[b] == if b < i {
                s[b]
            } else {
                s[b + 1]
            });
        }
    }
    if i == s.len() - 1 {
        assert(s.remove(i) =~= s.drop_last());
        lemma_assoc_map_domain(s.drop_last(), s[i].0@);
        assert(!assoc_map(s.drop_last()).contains_key(s[i].0@));
        assert(assoc_map(s.drop_last()) =~= assoc_map(s).remove(s[i].0@));
    } else {
        lemma_assoc_map_remove(s.drop_last(), i);
        assert(s.remove(i).drop_last() =~= s.drop_last().remove(i));
        assert(s.remove(i).last() == s.last());
        assert(assoc_map(s.remove(i)) == assoc_map(s.drop_last().remove(i)).insert(
            s.last().0@,
            s.last().1.deep_view(),
        ));
        assert(s.drop_last()[i] == s[i]);
        assert(assoc_map(s.remove(i)) =~= assoc_map(s).remove(s[i].0@));
    }
}

/// The index of the entry carrying `key`, when there is one.
pub fn assoc_find<V: DeepView>(entries: &Vec<(SourcePath, V)>, key: &SourcePath) -> (r: Option<
    usize,
>)
    ensures
        match r {
            Some(i) => i < entries@.len() && entries@[i as int].0@ == key@,
            None => forall|i: int| 0 <= i < entries@.len() ==> entries@[i].0@ != key@,
        },
{
    let mut i: usize = 0;
    while i < entries.len()
        invariant
            i <= entries@.len(),
            forall|j: int| 0 <= j < i ==> entries@[j].0@ != key@,
        decreases entries@.len() - i,
    {
        if entries[i].0.0 == key.0 {
            return Some(i);
        }
        i = i + 1;
    }
    None
}

/// A borrow of the value stored under `key`, when there is one.
pub fn assoc_get<'a, V: DeepView>(entries: &'a Vec<(SourcePath, V)>, key: &SourcePath) -> (r:
    Option<&'a V>)
    requires
        unique_keys(entries@),
    ensures
        match r {
            Some(v) => assoc_map(entries@).contains_key(key@) && v.deep_view() == assoc_map(
                entries@,
            )[key@],
            None => !assoc_map(entries@).contains_key(key@),
        },
{
    proof {
        lemma_assoc_map_domain(entries@, key@);
    }
    match assoc_find(entries, key) {
        Some(i) => {
            proof {
                lemma_assoc_map_index(entries@, i as int);
            }
            Some(&entries[i].1)
        },
        None => None,
    }
}

/// Inserts or replaces the value under `key`.
pub fn assoc_set<V: DeepView>(entries: &mut Vec<(SourcePath, V)>, key: SourcePath, value: V)
    requires
        unique_keys(old(entries)@),
    ensures
        unique_keys(final(entries)@),
        assoc_map(final(entries)@) == assoc_map(old(entries)@).insert(key@, value.deep_view()),
{
    let ghost pre = entries@;
    let ghost kview = key@;
    match assoc_find(entries, &key) {
        Some(i) => {
            proof {
                lemma_assoc_map_remove(pre, i as int);
            }
            let _ = entries.remove(i);
            let ghost mid = entries@;
            entries.push((key, value));
            proof {
                let cur = entries@;
                assert(cur.drop_last() =~= mid);
                assert forall|a: int| 0 <= a < mid.len() implies mid[a].0@ != kview by {
                    assert(mid[a] == if a < i {
                        pre[a]
                    } else {
                        pre[a + 1]
                    });
                }
                assert forall|a: int, b: int| 0 <= a < b < cur.len() implies cur[a].0@
                    != cur[b].0@ by {
                    if b < cur.len() - 1 {
                        assert(cur[a] == mid[a]);
                        assert(cur[b] == mid[b]);
                    } else {
                        assert(cur[a] == mid[a]);
                        assert(cur[b].0@ == kview);
                    }
                }
                assert(assoc_map(cur) == assoc_map(mid).insert(kview, value.deep_view()));
                assert(assoc_map(cur) =~= assoc_map(pre).insert(kview, value.deep_view()));
            }
        },
        None => {
            entries.push((key, value));
            proof {
                let cur = entries@;
                assert(cur.drop_last() =~= pre);
                assert forall|a: int, b: int| 0 <= a < b < cur.len() implies cur[a].0@
                    != cur[b].0@ by {
                    if b < cur.len() - 1 {
                        assert(cur[a] == pre[a]);
                        assert(cur[b] == pre[b]);
                    } else {
                        assert(cur[a] == pre[a]);
                        assert(cur[b].0@ == kview);
                    }
                }
                assert(assoc_map(cur) == assoc_map(pre).insert(kview, value.deep_view()));
            }
        },
    }
}

/// Drops the value under `key`, if any.
pub fn assoc_remove<V: DeepView>(entries: &mut Vec<(SourcePath, V)>, key: &SourcePath)
    requires
        unique_keys(old(entries)@),
    ensures
        unique_keys(final(entries)@),
        assoc_map(final(entries)@) == assoc_map(old(entries)@).remove(key@),
{
    let ghost pre = entries@;
    match assoc_find(entries, key) {
        Some(i) => {
            proof {
                lemma_assoc_map_remove(pre, i as int);
            }
            let _ = entries.remove(i);
        },
        None => {
            proof {
                lemma_assoc_map_domain(pre, key@);
                assert(assoc_map(pre) =~= assoc_map(pre).remove(key@));
            }
        },
    }
}

} // verus!
