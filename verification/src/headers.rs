//! Header collections: a vector of key-value pairs read as a mapping in which
//! a later pair overrides an earlier one with the same key.

use vstd::prelude::*;

verus! {

/// The views of a vector of key-value string pairs, in order.
pub open spec fn pair_views(v: Seq<(String, String)>) -> Seq<(Seq<char>, Seq<char>)> {
    v.map_values(|p: (String, String)| (p.0@, p.1@))
}

/// The mapping that a sequence of key-value pairs represents: a later pair
/// overrides an earlier one with the same key.
pub open spec fn map_of(pairs: Seq<(Seq<char>, Seq<char>)>) -> Map<Seq<char>, Seq<char>>
    decreases pairs.len(),
{
    if pairs.len() == 0 {
        Map::empty()
    } else {
        map_of(pairs.drop_last()).insert(pairs.last().0, pairs.last().1)
    }
}

/// No two pairs share a key.
pub open spec fn unique_keys(pairs: Seq<(Seq<char>, Seq<char>)>) -> bool {
    forall|i: int, j: int|
        0 <= i < pairs.len() && 0 <= j < pairs.len() && i != j ==> pairs[i].0 != pairs[j].0
}

/// A key that no pair holds is not in the mapping.
proof fn lemma_map_of_absent(pairs: Seq<(Seq<char>, Seq<char>)>, key: Seq<char>)
    requires
        forall|j: int| 0 <= j < pairs.len() ==> pairs[j].0 != key,
    ensures
        !map_of(pairs).dom().contains(key),
    decreases pairs.len(),
{
    if pairs.len() > 0 {
        lemma_map_of_absent(pairs.drop_last(), key);
    }
}

/// Replacing the one pair that holds `key` acts on the mapping as an insert.
proof fn lemma_map_of_overwrite(pairs: Seq<(Seq<char>, Seq<char>)>, i: int)
    requires
        0 <= i < pairs.len(),
        forall|j: int| 0 <= j < pairs.len() && j != i ==> pairs[j].0 != pairs[i].0,
    ensures
        map_of(pairs.remove(i)) =~= map_of(pairs).remove(pairs[i].0),
    decreases pairs.len(),
{
    let key = pairs[i].0;
    if i == pairs.len() - 1 {
        assert(pairs.remove(i) =~= pairs.drop_last());
        lemma_map_of_absent(pairs.drop_last(), key);
        assert(map_of(pairs.drop_last()) =~= map_of(pairs.drop_last()).insert(
            key,
            pairs.last().1,
        ).remove(key));
    } else {
        assert(pairs.remove(i).drop_last() =~= pairs.drop_last().remove(i));
        assert(pairs.remove(i).last() == pairs.last());
        assert(pairs.drop_last()[i] == pairs[i]);
        lemma_map_of_overwrite(pairs.drop_last(), i);
        assert(map_of(pairs.remove(i)) == map_of(pairs.drop_last().remove(i)).insert(
            pairs.last().0,
            pairs.last().1,
        ));
        assert(map_of(pairs).remove(key) =~= map_of(pairs.drop_last()).remove(key).insert(
            pairs.last().0,
            pairs.last().1,
        ));
    }
}

/// Records `key: value`, overriding any earlier pair with the same key, so
/// that the represented mapping gains exactly that binding.
pub fn insert_header(headers: &mut Vec<(String, String)>, key: String, value: String)
    requires
        unique_keys(pair_views(old(headers)@)),
    ensures
        unique_keys(pair_views(final(headers)@)),
        map_of(pair_views(final(headers)@)) =~= map_of(pair_views(old(headers)@)).insert(
            key@,
            value@,
        ),
    {
    let ghost orig = pair_views(headers@);
    let mut i: usize = 0;
    while i < headers.len()
        invariant
            unique_keys(pair_views(headers@)),
            pair_views(headers@) == orig,
            orig == pair_views(old(headers)@),
            i <= headers@.len(),
            forall|k: int| 0 <= k < i ==> pair_views(headers@)[k].0 != key@,
        decreases headers@.len() - i,
    {
        if headers[i].0 == key {
            proof {
                lemma_map_of_overwrite(orig, i as int);
            }
            let _ = headers.remove(i);
            headers.push((key, value));
            proof {
                assert(pair_views(headers@) =~= orig.remove(i as int).push((key@, value@)));
                assert(pair_views(headers@).drop_last() =~= orig.remove(i as int));
                assert(pair_views(headers@).last() == (key@, value@));
                assert(orig[i as int].0 == key@);
                assert(map_of(pair_views(headers@)) == map_of(pair_views(headers@).drop_last())
                    .insert(key@, value@));
                assert(map_of(pair_views(headers@)) =~= map_of(orig).remove(key@).insert(
                    key@,
                    value@,
                ));
                assert(map_of(pair_views(headers@)) =~= map_of(orig).insert(key@, value@));
                assert forall|a: int, b: int|
                    0 <= a < pair_views(headers@).len() && 0 <= b < pair_views(headers@).len()
                        && a != b implies pair_views(headers@)[a].0 != pair_views(
                    headers@,
                )[b].0 by {
                    let n = pair_views(headers@).len();
                    assert(forall|k: int|
                        0 <= k < n - 1 ==> pair_views(headers@)[k] == if k < i {
                            orig[k]
                        } else {
                            orig[k + 1]
                        });
                }
            }
            return ;
        }
        i += 1;
    }
    headers.push((key, value));
    proof {
        assert(pair_views(headers@) =~= orig.push((key@, value@)));
        assert(pair_views(headers@).drop_last() =~= orig);
        assert forall|a: int, b: int|
            0 <= a < pair_views(headers@).len() && 0 <= b < pair_views(headers@).len() && a
                != b implies pair_views(headers@)[a].0 != pair_views(headers@)[b].0 by {
            let n = pair_views(headers@).len();
            assert(forall|k: int| 0 <= k < n - 1 ==> pair_views(headers@)[k] == orig[k]);
        }
    }
}

} // verus!
