//! Lexicographic order on names and sorted, duplicate-free name lists.

use vstd::prelude::*;

verus! {

/// Strict lexicographic order on character sequences, by code point.
/// On valid text this is the order of `str`'s own comparison.
pub open spec fn seq_lt(a: Seq<char>, b: Seq<char>) -> bool
    decreases a.len(),
{
    if a.len() == 0 {
        b.len() > 0
    } else if b.len() == 0 {
        false
    } else if a[0] == b[0] {
        seq_lt(a.drop_first(), b.drop_first())
    } else {
        (a[0] as int) < (b[0] as int)
    }
}

/// A list of names in strictly increasing order (hence without repeats).
pub open spec fn strictly_sorted(s: Seq<Seq<char>>) -> bool {
    forall|i: int, j: int| 0 <= i < j < s.len() ==> seq_lt(#[trigger] s[i], #[trigger] s[j])
}

/// Inserts `x` into a name list at the first place where it is not greater
/// than the element found there; an equal element already present is kept.
pub open spec fn insert_name_spec(s: Seq<Seq<char>>, x: Seq<char>) -> Seq<Seq<char>>
    decreases s.len(),
{
    if s.len() == 0 {
        seq![x]
    } else if s[0] == x {
        s
    } else if seq_lt(x, s[0]) {
        seq![x] + s
    } else {
        seq![s[0]] + insert_name_spec(s.drop_first(), x)
    }
}

/// The sorted union of a sequence of names: each is inserted in turn.
pub open spec fn union_names(names: Seq<Seq<char>>) -> Seq<Seq<char>>
    decreases names.len(),
{
    if names.len() == 0 {
        Seq::empty()
    } else {
        insert_name_spec(union_names(names.drop_last()), names.last())
    }
}

pub proof fn lemma_seq_lt_irreflexive(a: Seq<char>)
    ensures
        !seq_lt(a, a),
    decreases a.len(),
{
    if a.len() > 0 {
        lemma_seq_lt_irreflexive(a.drop_first());
    }
}

pub proof fn lemma_seq_lt_total(a: Seq<char>, b: Seq<char>)
    ensures
        a == b || seq_lt(a, b) || seq_lt(b, a),
        !(seq_lt(a, b) && seq_lt(b, a)),
    decreases a.len(),
{
    if a.len() > 0 && b.len() > 0 {
        lemma_seq_lt_total(a.drop_first(), b.drop_first());
        if a[0] != b[0] {
            assert((a[0] as int) != (b[0] as int));
        } else if a.drop_first() == b.drop_first() {
            assert(a =~= seq![a[0]] + a.drop_first());
            assert(b =~= seq![b[0]] + b.drop_first());
        }
    } else if a.len() == 0 && b.len() == 0 {
        assert(a =~= b);
    }
}

pub proof fn lemma_seq_lt_transitive(a: Seq<char>, b: Seq<char>, c: Seq<char>)
    requires
        seq_lt(a, b),
        seq_lt(b, c),
    ensures
        seq_lt(a, c),
    decreases a.len(),
{
    if a.len() > 0 && b.len() > 0 && c.len() > 0 && a[0] == b[0] && b[0] == c[0] {
        lemma_seq_lt_transitive(a.drop_first(), b.drop_first(), c.drop_first());
    }
}

/// Equal prefixes of length `i` leave the comparison to what follows them.
proof fn lemma_seq_lt_skip(a: Seq<char>, b: Seq<char>, i: int)
    requires
        0 <= i <= a.len(),
        i <= b.len(),
        a.subrange(0, i) == b.subrange(0, i),
    ensures
        seq_lt(a, b) == seq_lt(a.subrange(i, a.len() as int), b.subrange(i, b.len() as int)),
    decreases i,
{
    if i > 0 {
        assert(a[0] == a.subrange(0, i)[0]);
        assert(b[0] == b.subrange(0, i)[0]);
        assert(a.drop_first().subrange(0, i - 1) =~= a.subrange(0, i).drop_first());
        assert(b.drop_first().subrange(0, i - 1) =~= b.subrange(0, i).drop_first());
        lemma_seq_lt_skip(a.drop_first(), b.drop_first(), i - 1);
        assert(a.drop_first().subrange(i - 1, a.len() - 1) =~= a.subrange(i, a.len() as int));
        assert(b.drop_first().subrange(i - 1, b.len() - 1) =~= b.subrange(i, b.len() as int));
    } else {
        assert(a.subrange(0, a.len() as int) =~= a);
        assert(b.subrange(0, b.len() as int) =~= b);
    }
}

/// Whether `a` comes strictly before `b`.
pub fn name_lt(a: &str, b: &str) -> (r: bool)
    ensures
        r == seq_lt(a@, b@),
{
    let la = a.unicode_len();
    let lb = b.unicode_len();
    let mut i: usize = 0;
    while i < la && i < lb
        invariant
            la == a@.len(),
            lb == b@.len(),
            i <= la,
            i <= lb,
            a@.subrange(0, i as int) == b@.subrange(0, i as int),
        decreases la - i,
    {
        let ca = a.get_char(i);
        let cb = b.get_char(i);
        if ca != cb {
            proof {
                lemma_seq_lt_skip(a@, b@, i as int);
                let sa = a@.subrange(i as int, la as int);
                let sb = b@.subrange(i as int, lb as int);
                assert(sa[0] == ca);
                assert(sb[0] == cb);
            }
            return (ca as u32) < (cb as u32);
        }
        assert(a@.subrange(0, i + 1) =~= a@.subrange(0, i as int).push(ca));
        assert(b@.subrange(0, i + 1) =~= b@.subrange(0, i as int).push(cb));
        i = i + 1;
    }
    proof {
        lemma_seq_lt_skip(a@, b@, i as int);
    }
    i == la && i < lb
}

/// Walking past the elements smaller than `x` leaves the insertion to the rest.
proof fn lemma_insert_skip(s: Seq<Seq<char>>, x: Seq<char>, i: int)
    requires
        0 <= i <= s.len(),
        forall|j: int| 0 <= j < i ==> seq_lt(#[trigger] s[j], x),
    ensures
        insert_name_spec(s, x) == s.subrange(0, i) + insert_name_spec(s.subrange(i, s.len() as int), x),
    decreases i,
{
    if i == 0 {
        assert(s.subrange(0, s.len() as int) =~= s);
        assert(s.subrange(0, 0) + insert_name_spec(s, x) =~= insert_name_spec(s, x));
    } else {
        lemma_seq_lt_irreflexive(x);
        lemma_seq_lt_total(s[0], x);
        assert(s[0] != x);
        assert(!seq_lt(x, s[0]));
        let t = s.drop_first();
        assert forall|j: int| 0 <= j < i - 1 implies seq_lt(#[trigger] t[j], x) by {
            assert(t[j] == s[j + 1]);
        }
        lemma_insert_skip(t, x, i - 1);
        assert(t.subrange(i - 1, t.len() as int) =~= s.subrange(i, s.len() as int));
        assert(seq![s[0]] + t.subrange(0, i - 1) =~= s.subrange(0, i));
        assert(seq![s[0]] + (t.subrange(0, i - 1) + insert_name_spec(s.subrange(i, s.len() as int), x))
            =~= s.subrange(0, i) + insert_name_spec(s.subrange(i, s.len() as int), x));
    }
}

/// Adds `x` to `names` as `insert_name_spec` says.
pub fn insert_name(names: &mut Vec<String>, x: &String)
    ensures
        final(names)@.map_values(|n: String| n@) == insert_name_spec(
            old(names)@.map_values(|n: String| n@),
            x@,
        ),
{
    let ghost s = names@.map_values(|n: String| n@);
    let mut i: usize = 0;
    while i < names.len() && name_lt(names[i].as_str(), x.as_str())
        invariant
            i <= names.len(),
            s == names@.map_values(|n: String| n@),
            forall|j: int| 0 <= j < i ==> seq_lt(#[trigger] s[j], x@),
        decreases names.len() - i,
    {
        i = i + 1;
    }
    proof {
        lemma_insert_skip(s, x@, i as int);
    }
    let ghost rest = s.subrange(i as int, s.len() as int);
    if i < names.len() && names[i] == *x {
        assert(s.subrange(0, i as int) + s.subrange(i as int, s.len() as int) =~= s);
        return;
    }
    proof {
        if i < names.len() {
            assert(rest[0] == s[i as int]);
            lemma_seq_lt_total(rest[0], x@);
        }
    }
    names.insert(i, x.clone());
    assert(names@.map_values(|n: String| n@) =~= s.subrange(0, i as int) + insert_name_spec(rest, x@));
}

proof fn lemma_insert_name(s: Seq<Seq<char>>, x: Seq<char>)
    requires
        strictly_sorted(s),
    ensures
        strictly_sorted(insert_name_spec(s, x)),
        insert_name_spec(s, x).to_set() == s.to_set().insert(x),
    decreases s.len(),
{
    if s.len() == 0 {
        assert(seq![x].to_set() =~= Set::<Seq<char>>::empty().insert(x)) by {
            assert(seq![x][0] == x);
        }
        assert(s.to_set() =~= Set::<Seq<char>>::empty());
    } else {
        let t = s.drop_first();
        assert(s =~= seq![s[0]] + t);
        assert(s.to_set() =~= t.to_set().insert(s[0])) by {
            assert forall|y: Seq<char>| s.to_set().contains(y) <==> t.to_set().insert(s[0]).contains(y) by {
                if s.contains(y) {
                    let k = choose|k: int| 0 <= k < s.len() && s[k] == y;
                    if k > 0 {
                        assert(t[k - 1] == y);
                    }
                }
                if t.contains(y) {
                    let k = choose|k: int| 0 <= k < t.len() && t[k] == y;
                    assert(s[k + 1] == y);
                }
                assert(s[0] == s[0]);
            }
        }
        if s[0] == x {
            assert(s.to_set().insert(x) =~= s.to_set());
        } else if seq_lt(x, s[0]) {
            let r = seq![x] + s;
            assert forall|i: int, j: int| 0 <= i < j < r.len() implies seq_lt(#[trigger] r[i], #[trigger] r[j]) by {
                if i == 0 {
                    if j > 1 {
                        lemma_seq_lt_transitive(x, s[0], s[j - 1]);
                    }
                } else {
                    assert(r[i] == s[i - 1] && r[j] == s[j - 1]);
                }
            }
            assert forall|y: Seq<char>| r.to_set().contains(y) <==> s.to_set().insert(x).contains(y) by {
                if r.contains(y) {
                    let k = choose|k: int| 0 <= k < r.len() && r[k] == y;
                    if k > 0 {
                        assert(s[k - 1] == y);
                    }
                }
                if s.contains(y) {
                    let k = choose|k: int| 0 <= k < s.len() && s[k] == y;
                    assert(r[k + 1] == y);
                }
                assert(r[0] == x);
            }
            assert(r.to_set() =~= s.to_set().insert(x));
        } else {
            lemma_seq_lt_total(x, s[0]);
            assert forall|i: int, j: int| 0 <= i < j < t.len() implies seq_lt(#[trigger] t[i], #[trigger] t[j]) by {
                assert(t[i] == s[i + 1] && t[j] == s[j + 1]);
            }
            lemma_insert_name(t, x);
            let u = insert_name_spec(t, x);
            let r = seq![s[0]] + u;
            assert forall|i: int, j: int| 0 <= i < j < r.len() implies seq_lt(#[trigger] r[i], #[trigger] r[j]) by {
                if i == 0 {
                    let y = u[j - 1];
                    assert(u.to_set().contains(y));
                    assert(u.contains(y));
                    if y != x {
                        assert(t.to_set().contains(y));
                        let k = choose|k: int| 0 <= k < t.len() && t[k] == y;
                        assert(s[k + 1] == y);
                    }
                } else {
                    assert(r[i] == u[i - 1] && r[j] == u[j - 1]);
                }
            }
            assert forall|y: Seq<char>| r.to_set().contains(y) <==> s.to_set().insert(x).contains(y) by {
                if r.contains(y) {
                    let k = choose|k: int| 0 <= k < r.len() && r[k] == y;
                    if k > 0 {
                        assert(u[k - 1] == y);
                        assert(u.to_set().contains(y));
                    }
                }
                if u.to_set().contains(y) {
                    assert(u.contains(y));
                    let k = choose|k: int| 0 <= k < u.len() && u[k] == y;
                    assert(r[k + 1] == y);
                }
                assert(r[0] == s[0]);
            }
            assert(r.to_set() =~= s.to_set().insert(x));
        }
    }
}

/// The union of names is sorted, free of repeats, and holds exactly the
/// names it was built from.
pub proof fn lemma_union_names(names: Seq<Seq<char>>)
    ensures
        strictly_sorted(union_names(names)),
        union_names(names).to_set() == names.to_set(),
    decreases names.len(),
{
    if names.len() == 0 {
        assert(union_names(names).to_set() =~= names.to_set());
    } else {
        let init = names.drop_last();
        lemma_union_names(init);
        lemma_insert_name(union_names(init), names.last());
        assert(names =~= init.push(names.last()));
        assert(names.to_set() =~= init.to_set().insert(names.last())) by {
            assert forall|y: Seq<char>| names.to_set().contains(y) <==> init.to_set().insert(names.last()).contains(y) by {
                if names.contains(y) {
                    let k = choose|k: int| 0 <= k < names.len() && names[k] == y;
                    if k < names.len() - 1 {
                        assert(init[k] == y);
                    }
                }
                if init.contains(y) {
                    let k = choose|k: int| 0 <= k < init.len() && init[k] == y;
                    assert(names[k] == y);
                }
                assert(names[names.len() - 1] == names.last());
            }
        }
    }
}

} // verus!
