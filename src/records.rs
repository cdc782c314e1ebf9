//! Byte-lexicographic key order and key-sorted record sets.

use vstd::prelude::*;

verus! {

/// A record as it is held in memory: a key and a value, both opaque bytes.
pub type Record = (Vec<u8>, Vec<u8>);

/// Strict byte-lexicographic order: a proper prefix sorts first.
pub open spec fn key_lt(a: Seq<u8>, b: Seq<u8>) -> bool
    decreases a.len(),
{
    if b.len() == 0 {
        false
    } else if a.len() == 0 {
        true
    } else if a[0] != b[0] {
        a[0] < b[0]
    } else {
        key_lt(a.drop_first(), b.drop_first())
    }
}

/// The mathematical view of a sequence of in-memory records.
pub open spec fn records_view(v: Seq<Record>) -> Seq<(Seq<u8>, Seq<u8>)> {
    v.map_values(|r: Record| (r.0@, r.1@))
}

/// Keys strictly ascend, hence are unique.
pub open spec fn keys_sorted(s: Seq<(Seq<u8>, Seq<u8>)>) -> bool {
    forall|i: int, j: int| 0 <= i < j < s.len() ==> key_lt(#[trigger] s[i].0, #[trigger] s[j].0)
}

/// The key/value mapping a record sequence denotes; a later record overrides an
/// earlier one with the same key.
pub open spec fn as_map(s: Seq<(Seq<u8>, Seq<u8>)>) -> Map<Seq<u8>, Seq<u8>>
    decreases s.len(),
{
    if s.len() == 0 {
        Map::empty()
    } else {
        as_map(s.drop_last()).insert(s.last().0, s.last().1)
    }
}

pub proof fn lemma_key_lt_irreflexive(a: Seq<u8>)
    ensures
        !key_lt(a, a),
    decreases a.len(),
{
    if a.len() > 0 {
        lemma_key_lt_irreflexive(a.drop_first());
    }
}

pub proof fn lemma_key_lt_transitive(a: Seq<u8>, b: Seq<u8>, c: Seq<u8>)
    requires
        key_lt(a, b),
        key_lt(b, c),
    ensures
        key_lt(a, c),
    decreases a.len(),
{
    if a.len() > 0 && b.len() > 0 && c.len() > 0 && a[0] == b[0] && b[0] == c[0] {
        lemma_key_lt_transitive(a.drop_first(), b.drop_first(), c.drop_first());
    }
}

pub proof fn lemma_key_lt_total(a: Seq<u8>, b: Seq<u8>)
    requires
        a != b,
    ensures
        key_lt(a, b) || key_lt(b, a),
    decreases a.len(),
{
    if a.len() > 0 && b.len() > 0 && a[0] == b[0] {
        if a.drop_first() == b.drop_first() {
            assert(a =~= seq![a[0]] + a.drop_first());
            assert(b =~= seq![b[0]] + b.drop_first());
        } else {
            lemma_key_lt_total(a.drop_first(), b.drop_first());
        }
    } else if a.len() == 0 && b.len() == 0 {
        assert(a =~= b);
    }
}

/// Three-way comparison of two keys: negative, zero or positive as `a` sorts
/// before, equal to or after `b`.
pub fn compare_keys(a: &Vec<u8>, b: &Vec<u8>) -> (r: i8)
    ensures
        r < 0 <==> key_lt(a@, b@),
        r == 0 <==> a@ == b@,
        r > 0 <==> key_lt(b@, a@),
{
    let mut i: usize = 0;
    assert(a@.skip(0) =~= a@);
    assert(b@.skip(0) =~= b@);
    while i < a.len() && i < b.len() && a[i] == b[i]
        invariant
            i <= a@.len(),
            i <= b@.len(),
            a@.take(i as int) == b@.take(i as int),
            key_lt(a@, b@) == key_lt(a@.skip(i as int), b@.skip(i as int)),
            key_lt(b@, a@) == key_lt(b@.skip(i as int), a@.skip(i as int)),
        decreases a@.len() - i,
    {
        assert(a@.skip(i as int).drop_first() =~= a@.skip(i + 1));
        assert(b@.skip(i as int).drop_first() =~= b@.skip(i + 1));
        assert(a@.take(i + 1) =~= a@.take(i as int).push(a@[i as int]));
        assert(b@.take(i + 1) =~= b@.take(i as int).push(b@[i as int]));
        i = i + 1;
    }
    if i == a.len() && i == b.len() {
        assert(a@ =~= a@.take(i as int));
        assert(b@ =~= b@.take(i as int));
        proof {
            lemma_key_lt_irreflexive(a@);
        }
        0
    } else if i == a.len() {
        proof {
            if a@ == b@ {
                assert(false);
            }
        }
        -1
    } else if i == b.len() {
        proof {
            if a@ == b@ {
                assert(false);
            }
        }
        1
    } else if a[i] < b[i] {
        proof {
            if a@ == b@ {
                assert(false);
            }
        }
        -1
    } else {
        proof {
            if a@ == b@ {
                assert(false);
            }
        }
        1
    }
}

/// In a key-sorted sequence each record's key maps to its value, and every key
/// of the mapping is the key of some record.
pub proof fn lemma_as_map_sorted(s: Seq<(Seq<u8>, Seq<u8>)>)
    requires
        keys_sorted(s),
    ensures
        forall|i: int|
            0 <= i < s.len() ==> #[trigger] as_map(s).contains_key(s[i].0) && as_map(s)[s[i].0]
                == s[i].1,
        forall|k: Seq<u8>|
            #[trigger] as_map(s).contains_key(k) ==> exists|i: int| 0 <= i < s.len() && s[i].0 == k,
    decreases s.len(),
{
    if s.len() > 0 {
        let t = s.drop_last();
        assert(keys_sorted(t)) by {
            assert forall|i: int, j: int| 0 <= i < j < t.len() implies key_lt(
                #[trigger] t[i].0,
                #[trigger] t[j].0,
            ) by {
                assert(t[i] == s[i] && t[j] == s[j]);
            }
        }
        lemma_as_map_sorted(t);
        lemma_key_lt_irreflexive(s.last().0);
        assert(as_map(s) == as_map(t).insert(s.last().0, s.last().1));
        assert forall|i: int| 0 <= i < s.len() implies #[trigger] as_map(s).contains_key(s[i].0)
            && as_map(s)[s[i].0] == s[i].1 by {
            if i < s.len() - 1 {
                assert(t[i] == s[i]);
                assert(key_lt(s[i].0, s[s.len() - 1].0));
                assert(s[i].0 != s.last().0);
                assert(as_map(t).contains_key(t[i].0));
            }
        }
        assert forall|k: Seq<u8>| #[trigger] as_map(s).contains_key(k) implies exists|i: int|
            0 <= i < s.len() && s[i].0 == k by {
            if k != s.last().0 {
                assert(as_map(t).contains_key(k));
                let i = choose|i: int| 0 <= i < t.len() && t[i].0 == k;
                assert(s[i].0 == k);
            } else {
                assert(s[s.len() - 1].0 == k);
            }
        }
    }
}

/// Two key-sorted sequences that denote the same mapping are the same sequence.
pub proof fn lemma_sorted_unique_repr(s1: Seq<(Seq<u8>, Seq<u8>)>, s2: Seq<(Seq<u8>, Seq<u8>)>)
    requires
        keys_sorted(s1),
        keys_sorted(s2),
        as_map(s1) == as_map(s2),
    ensures
        s1 == s2,
    decreases s1.len(),
{
    lemma_as_map_sorted(s1);
    lemma_as_map_sorted(s2);
    if s1.len() == 0 {
        if s2.len() > 0 {
            assert(as_map(s2).contains_key(s2[0].0));
        }
        assert(s1 =~= s2);
    } else {
        assert(as_map(s1).contains_key(s1[s1.len() - 1].0));
        assert(s2.len() > 0);
        let k1 = s1.last().0;
        let k2 = s2.last().0;
        assert(as_map(s2).contains_key(s2[s2.len() - 1].0));
        if k1 != k2 {
            let j = choose|j: int| 0 <= j < s2.len() && s2[j].0 == k1;
            let i = choose|i: int| 0 <= i < s1.len() && s1[i].0 == k2;
            assert(j < s2.len() - 1);
            assert(i < s1.len() - 1);
            assert(key_lt(s1[i].0, s1[s1.len() - 1].0));
            assert(key_lt(s2[j].0, s2[s2.len() - 1].0));
            lemma_key_lt_transitive(k1, k2, k1);
            lemma_key_lt_irreflexive(k1);
        }
        let t1 = s1.drop_last();
        let t2 = s2.drop_last();
        assert(keys_sorted(t1)) by {
            assert forall|i: int, j: int| 0 <= i < j < t1.len() implies key_lt(
                #[trigger] t1[i].0,
                #[trigger] t1[j].0,
            ) by {
                assert(t1[i] == s1[i] && t1[j] == s1[j]);
            }
        }
        assert(keys_sorted(t2)) by {
            assert forall|i: int, j: int| 0 <= i < j < t2.len() implies key_lt(
                #[trigger] t2[i].0,
                #[trigger] t2[j].0,
            ) by {
                assert(t2[i] == s2[i] && t2[j] == s2[j]);
            }
        }
        lemma_as_map_sorted(t1);
        lemma_as_map_sorted(t2);
        lemma_key_lt_irreflexive(k1);
        assert(!as_map(t1).contains_key(k1)) by {
            if as_map(t1).contains_key(k1) {
                let i = choose|i: int| 0 <= i < t1.len() && t1[i].0 == k1;
                assert(s1[i] == t1[i]);
                assert(key_lt(s1[i].0, s1[s1.len() - 1].0));
            }
        }
        assert(!as_map(t2).contains_key(k1)) by {
            if as_map(t2).contains_key(k1) {
                let i = choose|i: int| 0 <= i < t2.len() && t2[i].0 == k1;
                assert(s2[i] == t2[i]);
                assert(key_lt(s2[i].0, s2[s2.len() - 1].0));
            }
        }
        assert(as_map(t1) =~= as_map(s1).remove(k1));
        assert(as_map(t2) =~= as_map(s2).remove(k1));
        lemma_sorted_unique_repr(t1, t2);
        assert(s1.last() == s2.last());
        assert(s1 =~= t1.push(s1.last()));
        assert(s2 =~= t2.push(s2.last()));
    }
}

/// Files `key` into a key-sorted record set: its value is replaced if the key
/// is present, otherwise the record is placed where the order asks.
pub fn insert_record(recs: &mut Vec<Record>, key: Vec<u8>, value: Vec<u8>)
    requires
        keys_sorted(records_view(old(recs)@)),
    ensures
        keys_sorted(records_view(final(recs)@)),
        as_map(records_view(final(recs)@)) == as_map(records_view(old(recs)@)).insert(
            key@,
            value@,
        ),
{
    let ghost old_v = records_view(recs@);
    let mut i: usize = 0;
    let mut found = false;
    while i < recs.len() && !found
        invariant
            i <= recs@.len(),
            records_view(recs@) == old_v,
            forall|j: int| 0 <= j < i ==> key_lt(#[trigger] old_v[j].0, key@),
            found ==> i < recs@.len() && !key_lt(old_v[i as int].0, key@),
        decreases recs@.len() - i + (if found { 0int } else { 1int }),
    {
        if compare_keys(&recs[i].0, &key) < 0 {
            i = i + 1;
        } else {
            found = true;
        }
    }
    let same = i < recs.len() && compare_keys(&recs[i].0, &key) == 0;
    proof {
        lemma_as_map_sorted(old_v);
        lemma_key_lt_irreflexive(key@);
    }
    let ghost kv = (key@, value@);
    if same {
        recs[i] = (key, value);
        let ghost nv = records_view(recs@);
        assert(nv =~= old_v.update(i as int, kv));
        assert(keys_sorted(nv)) by {
            assert forall|a: int, b: int| 0 <= a < b < nv.len() implies key_lt(
                #[trigger] nv[a].0,
                #[trigger] nv[b].0,
            ) by {
                assert(nv[a].0 == old_v[a].0);
                assert(nv[b].0 == old_v[b].0);
            }
        }
        proof {
            lemma_as_map_sorted(nv);
        }
        assert(as_map(nv) =~= as_map(old_v).insert(key@, value@)) by {
            assert forall|k: Seq<u8>| #[trigger] as_map(nv).contains_key(k) implies as_map(
                old_v,
            ).insert(key@, value@).contains_key(k) by {
                let j = choose|j: int| 0 <= j < nv.len() && nv[j].0 == k;
                if j != i {
                    assert(as_map(old_v).contains_key(old_v[j].0));
                }
            }
            assert forall|k: Seq<u8>| #[trigger]
                as_map(old_v).insert(key@, value@).contains_key(k) implies as_map(nv).contains_key(
                k,
            ) && as_map(nv)[k] == as_map(old_v).insert(key@, value@)[k] by {
                if k == key@ {
                    assert(as_map(nv).contains_key(nv[i as int].0));
                } else {
                    let j = choose|j: int| 0 <= j < old_v.len() && old_v[j].0 == k;
                    assert(nv[j] == old_v[j]);
                    assert(as_map(nv).contains_key(nv[j].0));
                }
            }
        }
    } else {
        recs.insert(i, (key, value));
        let ghost nv = records_view(recs@);
        assert(nv =~= old_v.insert(i as int, kv));
        proof {
            if i < old_v.len() {
                lemma_key_lt_total(old_v[i as int].0, key@);
            }
        }
        assert(keys_sorted(nv)) by {
            assert forall|a: int, b: int| 0 <= a < b < nv.len() implies key_lt(
                #[trigger] nv[a].0,
                #[trigger] nv[b].0,
            ) by {
                if b == i {
                } else if a == i {
                    if b - 1 > i {
                        assert(key_lt(old_v[i as int].0, old_v[b - 1].0));
                        lemma_key_lt_transitive(key@, old_v[i as int].0, old_v[b - 1].0);
                    }
                } else if a < i && b > i {
                    if i < old_v.len() {
                        lemma_key_lt_transitive(old_v[a].0, key@, old_v[i as int].0);
                        if b - 1 > i {
                            assert(key_lt(old_v[i as int].0, old_v[b - 1].0));
                            lemma_key_lt_transitive(old_v[a].0, old_v[i as int].0, old_v[b - 1].0);
                        }
                    }
                } else if a > i {
                    assert(nv[a] == old_v[a - 1] && nv[b] == old_v[b - 1]);
                }
            }
        }
        proof {
            lemma_as_map_sorted(nv);
        }
        assert(as_map(nv) =~= as_map(old_v).insert(key@, value@)) by {
            assert forall|k: Seq<u8>| #[trigger] as_map(nv).contains_key(k) implies as_map(
                old_v,
            ).insert(key@, value@).contains_key(k) by {
                let j = choose|j: int| 0 <= j < nv.len() && nv[j].0 == k;
                if j < i {
                    assert(as_map(old_v).contains_key(old_v[j].0));
                } else if j > i {
                    assert(nv[j] == old_v[j - 1]);
                    assert(as_map(old_v).contains_key(old_v[j - 1].0));
                }
            }
            assert forall|k: Seq<u8>| #[trigger]
                as_map(old_v).insert(key@, value@).contains_key(k) implies as_map(nv).contains_key(
                k,
            ) && as_map(nv)[k] == as_map(old_v).insert(key@, value@)[k] by {
                if k == key@ {
                    assert(as_map(nv).contains_key(nv[i as int].0));
                } else {
                    let j = choose|j: int| 0 <= j < old_v.len() && old_v[j].0 == k;
                    if j < i {
                        assert(nv[j] == old_v[j]);
                        assert(as_map(nv).contains_key(nv[j].0));
                    } else {
                        assert(nv[j + 1] == old_v[j]);
                        assert(as_map(nv).contains_key(nv[j + 1].0));
                    }
                }
            }
        }
    }
}

/// The mapping that merging a sequence of tables denotes: later tables override
/// earlier ones on a shared key.
pub open spec fn merged_view(ts: Seq<Seq<(Seq<u8>, Seq<u8>)>>) -> Map<Seq<u8>, Seq<u8>>
    decreases ts.len(),
{
    if ts.len() == 0 {
        Map::empty()
    } else {
        merged_view(ts.drop_last()).union_prefer_right(as_map(ts.last()))
    }
}

/// The views of a sequence of in-memory tables.
pub open spec fn tables_view(ts: Seq<Vec<Record>>) -> Seq<Seq<(Seq<u8>, Seq<u8>)>> {
    ts.map_values(|t: Vec<Record>| records_view(t@))
}

/// Copies a byte vector.
pub fn copy_bytes(b: &Vec<u8>) -> (r: Vec<u8>)
    ensures
        r@ == b@,
{
    let r = b.clone();
    assert(r@ =~= b@);
    r
}

/// Merges tables, oldest first, into one key-sorted record set: on a key that
/// several tables share, the value of the latest table wins.
pub fn merge_tables(tables: &Vec<Vec<Record>>) -> (r: Vec<Record>)
    ensures
        keys_sorted(records_view(r@)),
        as_map(records_view(r@)) == merged_view(tables_view(tables@)),
{
    let ghost tv = tables_view(tables@);
    let mut acc: Vec<Record> = Vec::new();
    let mut i: usize = 0;
    assert(tv.take(0) =~= Seq::<Seq<(Seq<u8>, Seq<u8>)>>::empty());
    assert(as_map(records_view(acc@)) =~= Map::empty());
    while i < tables.len()
        invariant
            i <= tables@.len(),
            tv == tables_view(tables@),
            keys_sorted(records_view(acc@)),
            as_map(records_view(acc@)) == merged_view(tv.take(i as int)),
        decreases tables@.len() - i,
    {
        let table = &tables[i];
        let ghost before = merged_view(tv.take(i as int));
        let ghost tr = records_view(table@);
        assert(tr == tv[i as int]);
        let mut j: usize = 0;
        assert(tr.take(0) =~= Seq::<(Seq<u8>, Seq<u8>)>::empty());
        assert(before.union_prefer_right(as_map(tr.take(0))) =~= before);
        while j < table.len()
            invariant
                j <= table@.len(),
                tr == records_view(table@),
                keys_sorted(records_view(acc@)),
                as_map(records_view(acc@)) == before.union_prefer_right(as_map(tr.take(j as int))),
            decreases table@.len() - j,
        {
            let key = copy_bytes(&table[j].0);
            let value = copy_bytes(&table[j].1);
            insert_record(&mut acc, key, value);
            assert(tr.take(j + 1).drop_last() =~= tr.take(j as int));
            assert(before.union_prefer_right(as_map(tr.take(j + 1))) =~= before.union_prefer_right(
                as_map(tr.take(j as int)),
            ).insert(tr[j as int].0, tr[j as int].1));
            j = j + 1;
        }
        assert(tr.take(j as int) =~= tr);
        assert(tv.take(i + 1).drop_last() =~= tv.take(i as int));
        i = i + 1;
    }
    assert(tv.take(i as int) =~= tv);
    acc
}

/// Merging an older table `a` with a newer table `b`: a key of `b` takes its
/// value from `b`, a key only in `a` keeps its value from `a`, and the keys of
/// the result are those of the two tables together.
pub proof fn lemma_merge_newer_wins(a: Seq<(Seq<u8>, Seq<u8>)>, b: Seq<(Seq<u8>, Seq<u8>)>)
    ensures
        merged_view(seq![a, b]) == as_map(a).union_prefer_right(as_map(b)),
        forall|k: Seq<u8>|
            #[trigger] as_map(b).contains_key(k) ==> merged_view(seq![a, b])[k] == as_map(b)[k],
        forall|k: Seq<u8>|
            #[trigger] as_map(a).contains_key(k) && !as_map(b).contains_key(k) ==> merged_view(
                seq![a, b],
            )[k] == as_map(a)[k],
        forall|k: Seq<u8>|
            #![trigger as_map(a).contains_key(k)]
            #![trigger as_map(b).contains_key(k)]
            merged_view(seq![a, b]).contains_key(k) <==> as_map(a).contains_key(k)
                || as_map(b).contains_key(k),
{
    let ts = seq![a, b];
    assert(ts.drop_last() =~= seq![a]);
    assert(seq![a].drop_last() =~= Seq::<Seq<(Seq<u8>, Seq<u8>)>>::empty());
    assert(seq![a].last() == a);
    assert(merged_view(Seq::<Seq<(Seq<u8>, Seq<u8>)>>::empty()) == Map::<Seq<u8>, Seq<u8>>::empty());
    assert(merged_view(seq![a]) == Map::<Seq<u8>, Seq<u8>>::empty().union_prefer_right(as_map(a)));
    assert(merged_view(seq![a]) =~= as_map(a));
}

/// Merging a single key-sorted table gives back that table, record for record.
pub proof fn lemma_merge_single(t: Seq<(Seq<u8>, Seq<u8>)>, out: Seq<(Seq<u8>, Seq<u8>)>)
    requires
        keys_sorted(t),
        keys_sorted(out),
        as_map(out) == merged_view(seq![t]),
    ensures
        out == t,
{
    assert(seq![t].drop_last() =~= Seq::<Seq<(Seq<u8>, Seq<u8>)>>::empty());
    assert(seq![t].last() == t);
    assert(merged_view(Seq::<Seq<(Seq<u8>, Seq<u8>)>>::empty()) == Map::<Seq<u8>, Seq<u8>>::empty());
    assert(merged_view(seq![t]) == Map::<Seq<u8>, Seq<u8>>::empty().union_prefer_right(as_map(t)));
    assert(merged_view(seq![t]) =~= as_map(t));
    lemma_sorted_unique_repr(out, t);
}

} // verus!
