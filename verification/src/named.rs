//! Sequences of named entries, each name occurring at most once, read as
//! maps from name to value.
use vstd::prelude::*;

verus! {

/// No name occurs twice.
pub open spec fn names_distinct<V>(s: Seq<(Seq<char>, V)>) -> bool {
    forall|i: int, j: int| 0 <= i < j < s.len() ==> #[trigger] s[i].0 != #[trigger] s[j].0
}

/// The entries as a map from name to value; a later entry of a name wins.
pub open spec fn named_map<V>(s: Seq<(Seq<char>, V)>) -> Map<Seq<char>, V>
    decreases s.len(),
{
    if s.len() == 0 {
        Map::empty()
    } else {
        named_map(s.drop_last()).insert(s.last().0, s.last().1)
    }
}

/// The entries without those of `name`, in their order.
pub open spec fn without_name<V>(s: Seq<(Seq<char>, V)>, name: Seq<char>) -> Seq<(Seq<char>, V)>
    decreases s.len(),
{
    if s.len() == 0 {
        s
    } else if s.last().0 == name {
        without_name(s.drop_last(), name)
    } else {
        without_name(s.drop_last(), name).push(s.last())
    }
}

/// Adding an entry at the end adds it to the map.
pub proof fn lemma_named_map_push<V>(s: Seq<(Seq<char>, V)>, e: (Seq<char>, V))
    ensures
        named_map(s.push(e)) == named_map(s).insert(e.0, e.1),
{
    assert(s.push(e).drop_last() =~= s);
}

/// What removing the entries of `name` keeps.
pub proof fn lemma_without_name<V>(s: Seq<(Seq<char>, V)>, name: Seq<char>)
    ensures
        forall|i: int| 0 <= i < without_name(s, name).len() ==> #[trigger] without_name(s, name)[i].0 != name,
        forall|x: (Seq<char>, V)| without_name(s, name).contains(x) ==> s.contains(x),
        names_distinct(s) ==> names_distinct(without_name(s, name)),
        named_map(without_name(s, name)) == named_map(s).remove(name),
        without_name(without_name(s, name), name) == without_name(s, name),
    decreases s.len(),
{
    if s.len() > 0 {
        let p = s.drop_last();
        let r = without_name(p, name);
        lemma_without_name(p, name);
        assert forall|x: (Seq<char>, V)| r.contains(x) implies s.contains(x) by {
            assert(p.contains(x));
            let k = choose|k: int| 0 <= k < p.len() && p[k] == x;
            assert(s[k] == x);
        }
        if s.last().0 == name {
            assert(named_map(s).remove(name) =~= named_map(p).remove(name));
        } else {
            let e = s.last();
            let r2 = r.push(e);
            assert forall|x: (Seq<char>, V)| r2.contains(x) implies s.contains(x) by {
                if x != e {
                    let k = choose|k: int| 0 <= k < r2.len() && r2[k] == x;
                    assert(r.contains(r[k]));
                } else {
                    assert(s[s.len() - 1] == e);
                }
            }
            if names_distinct(s) {
                assert forall|i: int, j: int| 0 <= i < j < r2.len() implies #[trigger] r2[i].0 != #[trigger] r2[j].0 by {
                    if j == r2.len() - 1 {
                        assert(r.contains(r[i]));
                        assert(p.contains(r[i]));
                        let k = choose|k: int| 0 <= k < p.len() && p[k] == r[i];
                        assert(s[k] == r[i]);
                    }
                }
            }
            lemma_named_map_push(r, e);
            assert(named_map(s).remove(name) =~= named_map(p).remove(name).insert(e.0, e.1));
            assert(r2.drop_last() =~= r);
        }
    }
}


/// With no name twice, the map has one key for each entry, and no other.
pub proof fn lemma_named_map_len<V>(s: Seq<(Seq<char>, V)>)
    requires
        names_distinct(s),
    ensures
        named_map(s).dom().finite(),
        named_map(s).dom().len() == s.len(),
        forall|k: Seq<char>| named_map(s).dom().contains(k) ==> exists|i: int| 0 <= i < s.len() && #[trigger] s[i].0 == k,
    decreases s.len(),
{
    broadcast use vstd::set::group_set_axioms;

    if s.len() == 0 {
        assert(named_map(s).dom() =~= Set::<Seq<char>>::empty());
    } else {
        let p = s.drop_last();
        let e = s.last();
        assert(names_distinct(p)) by {
            assert forall|i: int, j: int| 0 <= i < j < p.len() implies #[trigger] p[i].0 != #[trigger] p[j].0 by {
                assert(p[i] == s[i] && p[j] == s[j]);
            }
        }
        lemma_named_map_len(p);
        if named_map(p).dom().contains(e.0) {
            let i = choose|i: int| 0 <= i < p.len() && #[trigger] p[i].0 == e.0;
            assert(s[i].0 == s[s.len() - 1].0);
        }
        assert(named_map(s).dom() =~= named_map(p).dom().insert(e.0));
        assert forall|k: Seq<char>| named_map(s).dom().contains(k) implies exists|i: int| 0 <= i < s.len() && #[trigger] s[i].0 == k by {
            if k == e.0 {
                assert(s[s.len() - 1].0 == k);
            } else {
                let i = choose|i: int| 0 <= i < p.len() && #[trigger] p[i].0 == k;
                assert(s[i].0 == k);
            }
        }
    }
}

} // verus!
