//! Label sets: lists of `(key, value)` pairs read as maps (a later pair
//! overrides an earlier one with the same key), and their ordering by key.

use vstd::prelude::*;

use crate::text::chars_of;

verus! {

/// A label set read as a map; later pairs override earlier ones.
pub open spec fn labels_map(ls: Seq<(String, String)>) -> Map<Seq<char>, Seq<char>>
    decreases ls.len(),
{
    if ls.len() == 0 {
        Map::empty()
    } else {
        labels_map(ls.drop_last()).insert(ls.last().0@, ls.last().1@)
    }
}

/// No key occurs twice.
pub open spec fn keys_unique(ls: Seq<(String, String)>) -> bool {
    forall|a: int, b: int| 0 <= a < b < ls.len() ==> ls[a].0@ != ls[b].0@
}

/// With unique keys, the map holds exactly the pairs of the list.
pub proof fn lemma_labels_map_unique(ls: Seq<(String, String)>)
    requires
        keys_unique(ls),
    ensures
        forall|i: int| 0 <= i < ls.len() ==> #[trigger] labels_map(ls).contains_key(ls[i].0@)
            && labels_map(ls)[ls[i].0@] == ls[i].1@,
        forall|k: Seq<char>| #[trigger]
            labels_map(ls).contains_key(k) ==> exists|i: int| 0 <= i < ls.len() && ls[i].0@ == k,
    decreases ls.len(),
{
    if ls.len() > 0 {
        let rest = ls.drop_last();
        assert(keys_unique(rest));
        lemma_labels_map_unique(rest);
        assert forall|k: Seq<char>| #[trigger] labels_map(ls).contains_key(k) implies exists|i: int|
            0 <= i < ls.len() && ls[i].0@ == k by {
            if k != ls.last().0@ {
                assert(labels_map(rest).contains_key(k));
                let i = choose|i: int| 0 <= i < rest.len() && rest[i].0@ == k;
                assert(ls[i] == rest[i]);
            } else {
                assert(ls[ls.len() - 1].0@ == k);
            }
        }
        assert forall|i: int| 0 <= i < ls.len() implies #[trigger] labels_map(ls).contains_key(
            ls[i].0@,
        ) && labels_map(ls)[ls[i].0@] == ls[i].1@ by {
            if i < ls.len() - 1 {
                assert(ls[i] == rest[i]);
                assert(ls[i].0@ != ls[ls.len() - 1].0@);
                assert(labels_map(rest).contains_key(rest[i].0@));
                assert(labels_map(rest)[rest[i].0@] == rest[i].1@);
            }
        }
    }
}

/// A label set read as a map holds exactly the keys of its pairs, and each
/// key's value is that of the last pair with that key.
pub proof fn law_labels_last_pair_wins(ls: Seq<(String, String)>, i: int)
    requires
        0 <= i < ls.len(),
        forall|j: int| i < j < ls.len() ==> ls[j].0@ != ls[i].0@,
    ensures
        labels_map(ls).contains_key(ls[i].0@),
        labels_map(ls)[ls[i].0@] == ls[i].1@,
        forall|k: Seq<char>|
            #[trigger] labels_map(ls).contains_key(k) <==> exists|j: int| 0 <= j < ls.len() && ls[j].0@ == k,
    decreases ls.len(),
{
    lemma_labels_map_dom(ls);
    if i < ls.len() - 1 {
        let rest = ls.drop_last();
        assert(ls[i] == rest[i]);
        assert forall|j: int| i < j < rest.len() implies rest[j].0@ != rest[i].0@ by {
            assert(rest[j] == ls[j]);
        }
        law_labels_last_pair_wins(rest, i);
    }
}

proof fn lemma_labels_map_dom(ls: Seq<(String, String)>)
    ensures
        forall|k: Seq<char>|
            #[trigger] labels_map(ls).contains_key(k) <==> exists|j: int| 0 <= j < ls.len() && ls[j].0@ == k,
    decreases ls.len(),
{
    if ls.len() > 0 {
        let rest = ls.drop_last();
        lemma_labels_map_dom(rest);
        assert forall|k: Seq<char>| #[trigger] labels_map(ls).contains_key(k) <==> exists|j: int|
            0 <= j < ls.len() && ls[j].0@ == k by {
            if labels_map(ls).contains_key(k) && k != ls.last().0@ {
                assert(labels_map(rest).contains_key(k));
                let j = choose|j: int| 0 <= j < rest.len() && rest[j].0@ == k;
                assert(ls[j] == rest[j]);
                assert(0 <= j < ls.len() && ls[j].0@ == k);
            }
            if k == ls.last().0@ {
                assert(ls[ls.len() - 1].0@ == k);
            }
            if exists|j: int| 0 <= j < ls.len() && ls[j].0@ == k {
                let j = choose|j: int| 0 <= j < ls.len() && ls[j].0@ == k;
                if j < rest.len() {
                    assert(rest[j] == ls[j]);
                    assert(exists|j: int| 0 <= j < rest.len() && rest[j].0@ == k);
                    assert(labels_map(rest).contains_key(k));
                }
            }
        }
    }
}

fn clone_pair(p: &(String, String)) -> (r: (String, String))
    ensures
        r == *p,
{
    (p.0.clone(), p.1.clone())
}

/// A copy of a label list.
pub fn clone_labels(ls: &Vec<(String, String)>) -> (r: Vec<(String, String)>)
    ensures
        r@ == ls@,
{
    let mut r: Vec<(String, String)> = Vec::new();
    let mut i: usize = 0;
    while i < ls.len()
        invariant
            i <= ls@.len(),
            r@ =~= ls@.take(i as int),
        decreases ls@.len() - i,
    {
        r.push(clone_pair(&ls[i]));
        i = i + 1;
        assert(r@ =~= ls@.take(i as int));
    }
    assert(ls@.take(ls@.len() as int) =~= ls@);
    r
}

/// Sets `key` to `value`, replacing the pair that holds `key` if there is one.
pub fn set_label(ls: &mut Vec<(String, String)>, key: &String, value: &String)
    requires
        keys_unique(old(ls)@),
    ensures
        keys_unique(final(ls)@),
        labels_map(final(ls)@) == labels_map(old(ls)@).insert(key@, value@),
{
    let ghost before = ls@;
    proof {
        lemma_labels_map_unique(before);
    }
    let mut i: usize = 0;
    while i < ls.len()
        invariant
            ls@ == before,
            old(ls)@ == before,
            keys_unique(before),
            i <= ls@.len(),
            forall|q: int| 0 <= q < i ==> ls@[q].0@ != key@,
        decreases ls@.len() - i,
    {
        if ls[i].0 == *key {
            ls.remove(i);
            ls.insert(i, (key.clone(), value.clone()));
            proof {
                lemma_labels_map_unique(before);
                assert(before[i as int].0@ == key@);
                let after = ls@;
                assert(after =~= before.update(i as int, (*key, *value)));
                assert(keys_unique(after)) by {
                    assert forall|a: int, b: int| 0 <= a < b < after.len() implies after[a].0@
                        != after[b].0@ by {
                        if a != i && b != i {
                            assert(after[a] == before[a] && after[b] == before[b]);
                        } else if a == i {
                            assert(after[b] == before[b]);
                            assert(before[b].0@ != before[i as int].0@);
                        } else {
                            assert(after[a] == before[a]);
                            assert(before[a].0@ != before[i as int].0@);
                        }
                    }
                }
                lemma_labels_map_unique(after);
                let m1 = labels_map(after);
                let m2 = labels_map(before).insert(key@, value@);
                assert forall|k: Seq<char>| m1.contains_key(k) <==> m2.contains_key(k) by {
                    if m1.contains_key(k) {
                        let j = choose|j: int| 0 <= j < after.len() && after[j].0@ == k;
                        if j != i {
                            assert(after[j] == before[j]);
                            assert(labels_map(before).contains_key(before[j].0@));
                        }
                    }
                    if m2.contains_key(k) && k != key@ {
                        let j = choose|j: int| 0 <= j < before.len() && before[j].0@ == k;
                        assert(after[j] == before[j]);
                        assert(m1.contains_key(after[j].0@));
                    }
                    if k == key@ {
                        assert(m1.contains_key(after[i as int].0@));
                    }
                }
                assert forall|k: Seq<char>| m1.contains_key(k) implies m1[k] == m2[k] by {
                    let j = choose|j: int| 0 <= j < after.len() && after[j].0@ == k;
                    if j != i {
                        assert(after[j] == before[j]);
                        assert(labels_map(before)[before[j].0@] == before[j].1@);
                    }
                }
                assert(m1 =~= m2);
            }
            return;
        }
        i = i + 1;
    }
    ls.push((key.clone(), value.clone()));
    proof {
        let after = ls@;
        assert(after.drop_last() =~= before);
        assert(keys_unique(after)) by {
            assert forall|a: int, b: int| 0 <= a < b < after.len() implies after[a].0@
                != after[b].0@ by {
                if b < before.len() {
                    assert(after[a] == before[a] && after[b] == before[b]);
                } else {
                    assert(after[a] == before[a]);
                }
            }
        }
    }
}

/// `base` overridden by every pair of `over`, in order.
pub fn merge_labels(base: &Vec<(String, String)>, over: &Vec<(String, String)>) -> (r: Vec<
    (String, String),
>)
    requires
        keys_unique(base@),
    ensures
        keys_unique(r@),
        labels_map(r@) == labels_map(base@).union_prefer_right(labels_map(over@)),
{
    let mut r = clone_labels(base);
    let mut i: usize = 0;
    assert(labels_map(over@.take(0)) =~= Map::<Seq<char>, Seq<char>>::empty());
    assert(labels_map(base@).union_prefer_right(Map::empty()) =~= labels_map(base@));
    while i < over.len()
        invariant
            i <= over@.len(),
            keys_unique(r@),
            labels_map(r@) == labels_map(base@).union_prefer_right(labels_map(over@.take(i as int))),
        decreases over@.len() - i,
    {
        let ghost prev = labels_map(over@.take(i as int));
        set_label(&mut r, &over[i].0, &over[i].1);
        proof {
            assert(over@.take(i + 1).drop_last() =~= over@.take(i as int));
            assert(labels_map(base@).union_prefer_right(prev).insert(over@[i as int].0@, over@[i as int].1@)
                =~= labels_map(base@).union_prefer_right(prev.insert(over@[i as int].0@, over@[i as int].1@)));
        }
        i = i + 1;
    }
    assert(over@.take(over@.len() as int) =~= over@);
    r
}

/// Lexicographic order on character sequences (code point order, which for
/// UTF-8 text is also the byte order that `str` comparison uses).
pub open spec fn chars_le(a: Seq<char>, b: Seq<char>) -> bool
    decreases a.len(),
{
    if a.len() == 0 {
        true
    } else if b.len() == 0 {
        false
    } else if a[0] != b[0] {
        (a[0] as int) < (b[0] as int)
    } else {
        chars_le(a.drop_first(), b.drop_first())
    }
}

/// `chars_le` is total.
pub proof fn lemma_chars_le_total(a: Seq<char>, b: Seq<char>)
    ensures
        chars_le(a, b) || chars_le(b, a),
    decreases a.len(),
{
    if a.len() > 0 && b.len() > 0 && a[0] == b[0] {
        lemma_chars_le_total(a.drop_first(), b.drop_first());
    } else if a.len() > 0 && b.len() > 0 {
        assert((a[0] as int) != (b[0] as int));
    }
}

/// `chars_le` is antisymmetric.
pub proof fn lemma_chars_le_antisym(a: Seq<char>, b: Seq<char>)
    requires
        chars_le(a, b),
        chars_le(b, a),
    ensures
        a == b,
    decreases a.len(),
{
    if a.len() > 0 && b.len() > 0 {
        lemma_chars_le_antisym(a.drop_first(), b.drop_first());
        assert(a =~= seq![a[0]] + a.drop_first());
        assert(b =~= seq![b[0]] + b.drop_first());
    } else {
        assert(a.len() == 0 && b.len() == 0);
        assert(a =~= b);
    }
}

/// `chars_le` is transitive.
pub proof fn lemma_chars_le_trans(a: Seq<char>, b: Seq<char>, c: Seq<char>)
    requires
        chars_le(a, b),
        chars_le(b, c),
    ensures
        chars_le(a, c),
    decreases a.len(),
{
    if a.len() > 0 && b.len() > 0 && c.len() > 0 && a[0] == b[0] && b[0] == c[0] {
        lemma_chars_le_trans(a.drop_first(), b.drop_first(), c.drop_first());
    }
}

/// Whether `a <= b` for two strings.
pub fn str_le(a: &str, b: &str) -> (r: bool)
    ensures
        r == chars_le(a@, b@),
{
    let ca = chars_of(a);
    let cb = chars_of(b);
    let mut i: usize = 0;
    assert(ca@.skip(0) =~= ca@);
    assert(cb@.skip(0) =~= cb@);
    while i < ca.len() && i < cb.len()
        invariant
            ca@ == a@,
            cb@ == b@,
            i <= ca@.len(),
            i <= cb@.len(),
            chars_le(ca@, cb@) == chars_le(ca@.skip(i as int), cb@.skip(i as int)),
        decreases ca@.len() - i,
    {
        if ca[i] != cb[i] {
            let ghost sa = ca@.skip(i as int);
            let ghost sb = cb@.skip(i as int);
            assert(sa[0] == ca@[i as int]);
            assert(sb[0] == cb@[i as int]);
            assert(sa.len() > 0 && sb.len() > 0 && sa[0] != sb[0]);
            assert(chars_le(sa, sb) == ((sa[0] as int) < (sb[0] as int)));
            return ca[i] < cb[i];
        }
        assert(ca@.skip(i as int).drop_first() =~= ca@.skip(i + 1));
        assert(cb@.skip(i as int).drop_first() =~= cb@.skip(i + 1));
        i = i + 1;
    }
    if i == ca.len() {
        assert(ca@.skip(i as int).len() == 0);
    } else {
        assert(cb@.skip(i as int).len() == 0);
    }
    i == ca.len()
}

/// Stable insertion of a pair after every pair whose key is not greater.
pub open spec fn insert_by_key(s: Seq<(String, String)>, x: (String, String)) -> Seq<(String, String)>
    decreases s.len(),
{
    if s.len() == 0 || chars_le(s.last().0@, x.0@) {
        s.push(x)
    } else {
        insert_by_key(s.drop_last(), x).push(s.last())
    }
}

/// Stable sort of a label list by key.
pub open spec fn sort_by_key(s: Seq<(String, String)>) -> Seq<(String, String)>
    decreases s.len(),
{
    if s.len() == 0 {
        s
    } else {
        insert_by_key(sort_by_key(s.drop_last()), s.last())
    }
}

fn insert_pair_sorted(v: &mut Vec<(String, String)>, x: (String, String))
    ensures
        final(v)@ == insert_by_key(old(v)@, x),
    decreases old(v)@.len(),
{
    let n = v.len();
    if n == 0 || str_le(v[n - 1].0.as_str(), x.0.as_str()) {
        v.push(x);
    } else {
        let last = v.pop().unwrap();
        insert_pair_sorted(v, x);
        v.push(last);
    }
}

/// The labels ordered by key (stable).
pub fn sorted_labels(ls: &Vec<(String, String)>) -> (r: Vec<(String, String)>)
    ensures
        r@ == sort_by_key(ls@),
{
    let mut out: Vec<(String, String)> = Vec::new();
    let mut i: usize = 0;
    while i < ls.len()
        invariant
            i <= ls@.len(),
            out@ == sort_by_key(ls@.take(i as int)),
        decreases ls@.len() - i,
    {
        assert(ls@.take(i + 1).drop_last() =~= ls@.take(i as int));
        insert_pair_sorted(&mut out, clone_pair(&ls[i]));
        i = i + 1;
    }
    assert(ls@.take(ls@.len() as int) =~= ls@);
    out
}

} // verus!
