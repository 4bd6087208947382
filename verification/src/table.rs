//! Small string-keyed tables held in vectors of pairs, with at most one entry
//! per key.

use vstd::prelude::*;

use crate::text::strings_view;

verus! {

/// The keys of a table, as characters, beside their values.
pub open spec fn pairs_view<V>(p: Seq<(String, V)>) -> Seq<(Seq<char>, V)> {
    Seq::new(p.len(), |i: int| (p[i].0@, p[i].1))
}

/// No key occurs twice.
pub open spec fn keys_unique<V>(p: Seq<(Seq<char>, V)>) -> bool {
    forall|i: int, j: int| 0 <= i < j < p.len() ==> p[i].0 != p[j].0
}

/// No string occurs twice.
pub open spec fn no_duplicates(s: Seq<Seq<char>>) -> bool {
    forall|i: int, j: int| 0 <= i < j < s.len() ==> s[i] != s[j]
}

/// The value of the last entry with key `k`.
pub open spec fn lookup<V>(p: Seq<(Seq<char>, V)>, k: Seq<char>) -> Option<V>
    decreases p.len(),
{
    if p.len() == 0 {
        None
    } else if p.last().0 == k {
        Some(p.last().1)
    } else {
        lookup(p.drop_last(), k)
    }
}

pub proof fn lemma_lookup_absent<V>(p: Seq<(Seq<char>, V)>, k: Seq<char>)
    requires
        forall|i: int| 0 <= i < p.len() ==> p[i].0 != k,
    ensures
        lookup(p, k) is None,
    decreases p.len(),
{
    if p.len() > 0 {
        lemma_lookup_absent(p.drop_last(), k);
    }
}

pub proof fn lemma_lookup_unique<V>(p: Seq<(Seq<char>, V)>, i: int)
    requires
        keys_unique(p),
        0 <= i < p.len(),
    ensures
        lookup(p, p[i].0) == Some(p[i].1),
    decreases p.len(),
{
    if i < p.len() - 1 {
        lemma_lookup_unique(p.drop_last(), i);
    }
}

/// Sets the value of key `k`, adding an entry where there is none.
pub fn upsert<V>(table: &mut Vec<(String, V)>, k: String, value: V)
    requires
        keys_unique(pairs_view(old(table)@)),
    ensures
        keys_unique(pairs_view(final(table)@)),
        forall|q: Seq<char>| #[trigger] lookup(pairs_view(final(table)@), q) == if q == k@ {
            Some(value)
        } else {
            lookup(pairs_view(old(table)@), q)
        },
{
    let ghost old_p = pairs_view(table@);
    let mut i: usize = 0;
    while i < table.len() && table[i].0 != k
        invariant
            i <= table.len(),
            old_p == pairs_view(table@),
            forall|j: int| 0 <= j < i ==> old_p[j].0 != k@,
        decreases table.len() - i,
    {
        assert(old_p[i as int].0 == table@[i as int].0@);
        i += 1;
    }
    if i < table.len() {
        assert(old_p[i as int].0 == k@);
        table.set(i, (k, value));
        let ghost new_p = pairs_view(table@);
        assert(new_p =~= old_p.update(i as int, (k@, value)));
        assert forall|a: int, b: int| 0 <= a < b < new_p.len() implies new_p[a].0 != new_p[b].0 by {
            assert(old_p[a].0 != old_p[b].0);
        }
        assert forall|q: Seq<char>| #[trigger] lookup(new_p, q) == if q == k@ {
            Some(value)
        } else {
            lookup(old_p, q)
        } by {
            if q == k@ {
                lemma_lookup_unique(new_p, i as int);
            } else if exists|j: int| 0 <= j < old_p.len() && old_p[j].0 == q {
                let j = choose|j: int| 0 <= j < old_p.len() && old_p[j].0 == q;
                lemma_lookup_unique(old_p, j);
                lemma_lookup_unique(new_p, j);
            } else {
                lemma_lookup_absent(old_p, q);
                lemma_lookup_absent(new_p, q);
            }
        }
    } else {
        table.push((k, value));
        let ghost new_p = pairs_view(table@);
        assert(new_p =~= old_p.push((k@, value)));
        assert(new_p.drop_last() =~= old_p);
        assert forall|q: Seq<char>| #[trigger] lookup(new_p, q) == if q == k@ {
            Some(value)
        } else {
            lookup(old_p, q)
        } by {}
    }
}

/// The value of key `k`, where the table has one.
pub fn find_value<V: Copy>(table: &Vec<(String, V)>, k: &String) -> (r: Option<V>)
    requires
        keys_unique(pairs_view(table@)),
    ensures
        r == lookup(pairs_view(table@), k@),
{
    let ghost p = pairs_view(table@);
    let mut i: usize = 0;
    while i < table.len()
        invariant
            i <= table.len(),
            p == pairs_view(table@),
            keys_unique(p),
            forall|j: int| 0 <= j < i ==> p[j].0 != k@,
        decreases table.len() - i,
    {
        assert(p[i as int] == (table@[i as int].0@, table@[i as int].1));
        if table[i].0 == *k {
            proof {
                lemma_lookup_unique(p, i as int);
            }
            return Some(table[i].1);
        }
        i += 1;
    }
    proof {
        lemma_lookup_absent(p, k@);
    }
    None
}

/// The string value of key `k`, where the table has one.
pub fn find_value_string(table: &Vec<(String, String)>, k: &String) -> (r: Option<String>)
    requires
        keys_unique(pairs_view(table@)),
    ensures
        match r {
            Some(s) => lookup(pairs_view(table@), k@) matches Some(t) && t@ == s@,
            None => lookup(pairs_view(table@), k@) is None,
        },
{
    let ghost p = pairs_view(table@);
    let mut i: usize = 0;
    while i < table.len()
        invariant
            i <= table.len(),
            p == pairs_view(table@),
            keys_unique(p),
            forall|j: int| 0 <= j < i ==> p[j].0 != k@,
        decreases table.len() - i,
    {
        assert(p[i as int] == (table@[i as int].0@, table@[i as int].1));
        if table[i].0 == *k {
            proof {
                lemma_lookup_unique(p, i as int);
            }
            return Some(table[i].1.clone());
        }
        i += 1;
    }
    proof {
        lemma_lookup_absent(p, k@);
    }
    None
}

/// The strings of `v` without repetitions, each at its first occurrence.
pub open spec fn first_occurrences(s: Seq<Seq<char>>) -> Seq<Seq<char>>
    decreases s.len(),
{
    if s.len() == 0 {
        seq![]
    } else {
        let before = first_occurrences(s.drop_last());
        if before.contains(s.last()) {
            before
        } else {
            before.push(s.last())
        }
    }
}

pub proof fn lemma_contains_push<A>(s: Seq<A>, y: A, x: A)
    ensures
        s.push(y).contains(x) <==> (s.contains(x) || x == y),
{
    if s.contains(x) {
        let k = choose|k: int| 0 <= k < s.len() && s[k] == x;
        assert(s.push(y)[k] == x);
    }
    if x == y {
        assert(s.push(y)[s.len() as int] == x);
    }
    if s.push(y).contains(x) && x != y {
        let k = choose|k: int| 0 <= k < s.push(y).len() && s.push(y)[k] == x;
        assert(s[k] == x);
    }
}

proof fn lemma_first_occurrences(s: Seq<Seq<char>>)
    ensures
        no_duplicates(first_occurrences(s)),
        forall|x: Seq<char>| #[trigger] first_occurrences(s).contains(x) <==> s.contains(x),
    decreases s.len(),
{
    if s.len() > 0 {
        let d = s.drop_last();
        let l = s.last();
        lemma_first_occurrences(d);
        assert(s =~= d.push(l));
        let before = first_occurrences(d);
        assert forall|x: Seq<char>| #[trigger] first_occurrences(s).contains(x) <==> s.contains(x) by {
            lemma_contains_push(d, l, x);
            lemma_contains_push(before, l, x);
        }
    }
}

/// Without repetitions, keeping the first occurrences changes nothing.
pub proof fn lemma_first_occurrences_distinct(s: Seq<Seq<char>>)
    requires
        no_duplicates(s),
    ensures
        first_occurrences(s) == s,
    decreases s.len(),
{
    if s.len() > 0 {
        let d = s.drop_last();
        lemma_first_occurrences_distinct(d);
        lemma_first_occurrences(d);
        if d.contains(s.last()) {
            let k = choose|k: int| 0 <= k < d.len() && d[k] == s.last();
            assert(s[k] == s[s.len() - 1]);
        }
        assert(d.push(s.last()) =~= s);
    }
}

/// Dropping repetitions twice is dropping them once.
pub proof fn law_first_occurrences_idempotent(s: Seq<Seq<char>>)
    ensures
        first_occurrences(first_occurrences(s)) == first_occurrences(s),
{
    lemma_first_occurrences(s);
    lemma_first_occurrences_distinct(first_occurrences(s));
}

/// Removes repeated strings, keeping the first occurrence of each.
pub fn dedup_strings(v: Vec<String>) -> (r: Vec<String>)
    ensures
        strings_view(r@) == first_occurrences(strings_view(v@)),
        no_duplicates(strings_view(r@)),
        forall|x: Seq<char>| #[trigger] strings_view(r@).contains(x) <==> strings_view(v@).contains(x),
{
    let ghost sv = strings_view(v@);
    let mut out: Vec<String> = Vec::new();
    let mut i: usize = 0;
    while i < v.len()
        invariant
            i <= v.len(),
            sv == strings_view(v@),
            strings_view(out@) == first_occurrences(sv.take(i as int)),
        decreases v.len() - i,
    {
        let s = v[i].clone();
        assert(sv.take(i + 1).drop_last() =~= sv.take(i as int));
        assert(sv.take(i + 1).last() == sv[i as int]);
        assert(sv[i as int] == v@[i as int]@);
        let seen = crate::text::contains_text(&out, &s);
        if !seen {
            let ghost before = out@;
            out.push(s);
            assert(strings_view(out@) =~= strings_view(before).push(s@));
        }
        i += 1;
    }
    assert(sv.take(v.len() as int) =~= sv);
    proof {
        lemma_first_occurrences(sv);
    }
    out
}

} // verus!
