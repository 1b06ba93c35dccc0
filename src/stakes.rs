use vstd::prelude::*;

verus! {

/// A list of (identity bytes, stake) pairs, as the contracts see it.
pub type StakeList = Seq<(Seq<u8>, u64)>;

/// Stakes never grow from one position to the next.
pub open spec fn is_desc(s: StakeList) -> bool {
    forall|i: int, j: int| 0 <= i < j < s.len() ==> s[j].1 <= s[i].1
}

/// The pairs of `s` whose stake is `v`, in the order of `s`.
pub open spec fn with_stake(s: StakeList, v: u64) -> StakeList {
    s.filter(|e: (Seq<u8>, u64)| e.1 == v)
}

/// `r` is `s` ranked by stake, largest first, pairs of equal stake keeping
/// the order they have in `s`.
pub open spec fn is_stable_desc_of(r: StakeList, s: StakeList) -> bool {
    &&& is_desc(r)
    &&& forall|v: u64| #[trigger] with_stake(r, v) == with_stake(s, v)
}

/// The mapping that collecting `s` gives: a later pair overrides an earlier
/// one with the same identity.
pub open spec fn map_of(s: StakeList) -> Map<Seq<u8>, u64>
    decreases s.len(),
{
    if s.len() == 0 {
        Map::empty()
    } else {
        map_of(s.drop_last()).insert(s.last().0, s.last().1)
    }
}

/// No identity occurs twice.
pub open spec fn has_unique_keys(s: StakeList) -> bool {
    forall|i: int, j: int| 0 <= i < j < s.len() ==> s[i].0 != s[j].0
}

/// The sum of all stakes in `s`.
pub open spec fn total_of(s: StakeList) -> int
    decreases s.len(),
{
    if s.len() == 0 {
        0
    } else {
        total_of(s.drop_last()) + s.last().1
    }
}

/// Whether `s` holds a pair for `key`.
pub open spec fn has_key(s: StakeList, key: Seq<u8>) -> bool {
    exists|i: int| 0 <= i < s.len() && s[i].0 == key
}

pub proof fn lemma_total_take(s: StakeList, i: int)
    requires
        0 <= i <= s.len(),
    ensures
        total_of(s.take(i)) <= total_of(s),
        i < s.len() ==> total_of(s.take(i + 1)) == total_of(s.take(i)) + s[i].1,
    decreases s.len() - i,
{
    if i < s.len() {
        assert(s.take(i + 1).drop_last() =~= s.take(i));
        lemma_total_take(s, i + 1);
    } else {
        assert(s.take(i) =~= s);
    }
}

pub proof fn lemma_total_insert(s: StakeList, p: int, y: (Seq<u8>, u64))
    requires
        0 <= p <= s.len(),
    ensures
        total_of(s.insert(p, y)) == total_of(s) + y.1,
    decreases s.len(),
{
    if p == s.len() {
        assert(s.insert(p, y).drop_last() =~= s);
    } else {
        lemma_total_insert(s.drop_last(), p, y);
        assert(s.insert(p, y).drop_last() =~= s.drop_last().insert(p, y));
    }
}

pub proof fn lemma_total_update(s: StakeList, k: int, y: (Seq<u8>, u64))
    requires
        0 <= k < s.len(),
    ensures
        total_of(s.update(k, y)) == total_of(s) - s[k].1 + y.1,
    decreases s.len(),
{
    if k == s.len() - 1 {
        assert(s.update(k, y).drop_last() =~= s.drop_last());
    } else {
        lemma_total_update(s.drop_last(), k, y);
        assert(s.update(k, y).drop_last() =~= s.drop_last().update(k, y));
    }
}

pub proof fn lemma_map_of_keys(s: StakeList)
    ensures
        forall|key: Seq<u8>| #[trigger] map_of(s).contains_key(key) <==> has_key(s, key),
    decreases s.len(),
{
    if s.len() > 0 {
        let d = s.drop_last();
        lemma_map_of_keys(d);
        assert forall|key: Seq<u8>| #[trigger] map_of(s).contains_key(key) <==> has_key(s, key) by {
            assert(map_of(s) == map_of(d).insert(s.last().0, s.last().1));
            assert(map_of(d).contains_key(key) <==> has_key(d, key));
            if has_key(s, key) {
                let i = choose|i: int| 0 <= i < s.len() && s[i].0 == key;
                if i < s.len() - 1 {
                    assert(d[i].0 == key);
                }
            }
            if has_key(d, key) {
                let i = choose|i: int| 0 <= i < d.len() && d[i].0 == key;
                assert(s[i].0 == key);
            }
            if key == s.last().0 {
                assert(s[s.len() - 1].0 == key);
            }
        }
    }
}

pub proof fn lemma_map_of_value(s: StakeList, k: int)
    requires
        has_unique_keys(s),
        0 <= k < s.len(),
    ensures
        map_of(s).contains_key(s[k].0),
        map_of(s)[s[k].0] == s[k].1,
    decreases s.len(),
{
    if k < s.len() - 1 {
        lemma_map_of_value(s.drop_last(), k);
        assert(s.drop_last()[k] == s[k]);
    }
}

pub proof fn lemma_map_of_update(s: StakeList, k: int, y: (Seq<u8>, u64))
    requires
        has_unique_keys(s),
        0 <= k < s.len(),
        y.0 == s[k].0,
    ensures
        map_of(s.update(k, y)) == map_of(s).insert(y.0, y.1),
    decreases s.len(),
{
    let d = s.drop_last();
    if k == s.len() - 1 {
        assert(s.update(k, y).drop_last() =~= d);
        assert(map_of(s.update(k, y)) =~= map_of(s).insert(y.0, y.1));
    } else {
        assert(has_unique_keys(d));
        lemma_map_of_update(d, k, y);
        assert(s.update(k, y).drop_last() =~= d.update(k, y));
        assert(s.last().0 != y.0);
        assert(map_of(s.update(k, y)) =~= map_of(s).insert(y.0, y.1));
    }
}

pub proof fn lemma_with_stake_step(s: StakeList, v: u64)
    requires
        s.len() > 0,
    ensures
        with_stake(s, v) == if s.last().1 == v {
            with_stake(s.drop_last(), v).push(s.last())
        } else {
            with_stake(s.drop_last(), v)
        },
{
    reveal(Seq::filter);
}

/// A pair belongs to the class of its own stake.
pub proof fn lemma_with_stake_has(s: StakeList, i: int)
    requires
        0 <= i < s.len(),
    ensures
        with_stake(s, s[i].1).contains(s[i]),
    decreases s.len(),
{
    let v = s[i].1;
    lemma_with_stake_step(s, v);
    if i == s.len() - 1 {
        let w = with_stake(s, v);
        assert(w[w.len() - 1] == s[i]);
    } else {
        lemma_with_stake_has(s.drop_last(), i);
        assert(s.drop_last()[i] == s[i]);
        let w = with_stake(s.drop_last(), v);
        let k = choose|k: int| 0 <= k < w.len() && w[k] == s[i];
        assert(with_stake(s, v)[k] == s[i]);
    }
}

/// A stake class holds only pairs of the list.
pub proof fn lemma_with_stake_member(s: StakeList, v: u64, x: (Seq<u8>, u64))
    requires
        with_stake(s, v).contains(x),
    ensures
        s.contains(x),
    decreases s.len(),
{
    if s.len() == 0 {
        reveal(Seq::filter);
    } else {
        lemma_with_stake_step(s, v);
        if x == s.last() {
            assert(s[s.len() - 1] == x);
        } else {
            let w = with_stake(s, v);
            let k = choose|k: int| 0 <= k < w.len() && w[k] == x;
            assert(with_stake(s.drop_last(), v)[k] == x);
            lemma_with_stake_member(s.drop_last(), v, x);
            let j = choose|j: int| 0 <= j < s.drop_last().len() && s.drop_last()[j] == x;
            assert(s[j] == x);
        }
    }
}

pub proof fn lemma_with_stake_prepend(x: (Seq<u8>, u64), s: StakeList, v: u64)
    ensures
        with_stake(seq![x] + s, v) == if x.1 == v {
            seq![x] + with_stake(s, v)
        } else {
            with_stake(s, v)
        },
    decreases s.len(),
{
    let t = seq![x] + s;
    if s.len() == 0 {
        reveal(Seq::filter);
        assert(t =~= seq![x]);
        lemma_with_stake_step(t, v);
        assert(t.drop_last() =~= Seq::<(Seq<u8>, u64)>::empty());
        assert(with_stake(s, v) =~= Seq::<(Seq<u8>, u64)>::empty());
        if x.1 == v {
            assert(with_stake(t, v) =~= seq![x] + with_stake(s, v));
        } else {
            assert(with_stake(t, v) =~= with_stake(s, v));
        }
    } else {
        lemma_with_stake_prepend(x, s.drop_last(), v);
        lemma_with_stake_step(t, v);
        lemma_with_stake_step(s, v);
        assert(t.drop_last() =~= seq![x] + s.drop_last());
        assert(t.last() == s.last());
        let w = with_stake(s.drop_last(), v);
        if x.1 == v {
            assert(with_stake(t, v) =~= seq![x] + with_stake(s, v)) by {
                if s.last().1 == v {
                    assert((seq![x] + w).push(s.last()) =~= seq![x] + w.push(s.last()));
                }
            }
        }
    }
}

/// Inserting `y` into a descending list at the first place whose stake is
/// below `y`'s keeps it descending and appends `y` to its stake class.
pub proof fn lemma_insert_ranked(s: StakeList, p: int, y: (Seq<u8>, u64))
    requires
        is_desc(s),
        0 <= p <= s.len(),
        forall|k: int| 0 <= k < p ==> s[k].1 >= y.1,
        forall|k: int| p <= k < s.len() ==> s[k].1 < y.1,
    ensures
        is_desc(s.insert(p, y)),
        forall|v: u64|
            #[trigger] with_stake(s.insert(p, y), v) == if v == y.1 {
                with_stake(s, v).push(y)
            } else {
                with_stake(s, v)
            },
        total_of(s.insert(p, y)) == total_of(s) + y.1,
{
    broadcast use Seq::filter_distributes_over_add, Seq::lemma_filter_push;

    s.insert_ensures(p, y);
    lemma_total_insert(s, p, y);
    let a = s.take(p);
    let b = s.skip(p);
    assert(s =~= a + b);
    assert(s.insert(p, y) =~= a.push(y) + b);
    assert forall|v: u64| #[trigger] with_stake(s.insert(p, y), v) == if v == y.1 {
        with_stake(s, v).push(y)
    } else {
        with_stake(s, v)
    } by {
        let pred = |e: (Seq<u8>, u64)| e.1 == v;
        if v == y.1 {
            assert(b.all(|x: (Seq<u8>, u64)| !pred(x)));
            b.lemma_all_neg_filter_empty(pred);
            assert(with_stake(b, v) =~= Seq::<(Seq<u8>, u64)>::empty());
            assert(with_stake(s, v) =~= with_stake(a, v));
        }
        assert(with_stake(s.insert(p, y), v) == with_stake(a.push(y), v) + with_stake(b, v));
    }
}

/// Two descending lists whose stake classes agree are the same list: the
/// ranking that `is_stable_desc_of` describes is unique.
pub proof fn lemma_ranking_unique(r1: StakeList, r2: StakeList)
    requires
        is_desc(r1),
        is_desc(r2),
        forall|v: u64| #[trigger] with_stake(r1, v) == with_stake(r2, v),
    ensures
        r1 == r2,
    decreases r1.len(),
{
    if r1.len() == 0 || r2.len() == 0 {
        if r2.len() > 0 {
            lemma_with_stake_has(r2, 0);
            assert(with_stake(r1, r2[0].1) == with_stake(r2, r2[0].1));
            lemma_with_stake_member(r1, r2[0].1, r2[0]);
        }
        if r1.len() > 0 {
            lemma_with_stake_has(r1, 0);
            assert(with_stake(r1, r1[0].1) == with_stake(r2, r1[0].1));
            lemma_with_stake_member(r2, r1[0].1, r1[0]);
        }
        assert(r1 =~= r2);
    } else {
        let a = r1[0];
        let b = r2[0];
        lemma_with_stake_has(r1, 0);
        assert(with_stake(r1, a.1) == with_stake(r2, a.1));
        lemma_with_stake_member(r2, a.1, a);
        let j = choose|j: int| 0 <= j < r2.len() && r2[j] == a;
        assert(b.1 >= a.1) by {
            if j > 0 {
                assert(r2[j].1 <= r2[0].1);
            }
        }
        lemma_with_stake_has(r2, 0);
        assert(with_stake(r1, b.1) == with_stake(r2, b.1));
        lemma_with_stake_member(r1, b.1, b);
        let k = choose|k: int| 0 <= k < r1.len() && r1[k] == b;
        assert(a.1 >= b.1) by {
            if k > 0 {
                assert(r1[k].1 <= r1[0].1);
            }
        }
        let t1 = r1.drop_first();
        let t2 = r2.drop_first();
        assert(r1 =~= seq![a] + t1);
        assert(r2 =~= seq![b] + t2);
        assert forall|w: u64| #[trigger] with_stake(t1, w) == with_stake(t2, w) by {
            lemma_with_stake_prepend(a, t1, w);
            lemma_with_stake_prepend(b, t2, w);
            assert(with_stake(r1, w) == with_stake(r2, w));
            if w == a.1 {
                assert(with_stake(t1, w) =~= (seq![a] + with_stake(t1, w)).drop_first());
                assert(with_stake(t2, w) =~= (seq![b] + with_stake(t2, w)).drop_first());
            }
        }
        lemma_with_stake_prepend(a, t1, a.1);
        lemma_with_stake_prepend(b, t2, a.1);
        assert((seq![a] + with_stake(t1, a.1))[0] == a);
        assert((seq![b] + with_stake(t2, a.1))[0] == b);
        lemma_ranking_unique(t1, t2);
    }
}

} // verus!
