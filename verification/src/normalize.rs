//! Normalization of reported game sets: sorting by name and removing
//! duplicates, so that two reports describing the same set of games compare
//! equal regardless of the order the client listed them in.

use vstd::prelude::*;

use crate::order::{
    lemma_lex_le_antisymmetric, lemma_lex_le_reflexive, lemma_lex_le_total,
    lemma_lex_le_transitive, lex_le, lex_lt, str_eq, str_le,
};

verus! {

/// A sequence of names is in normal form: strictly increasing, hence sorted
/// and free of duplicates.
pub open spec fn sorted_unique(s: Seq<Seq<char>>) -> bool {
    forall|i: int, j: int| 0 <= i < j < s.len() ==> lex_lt(s[i], s[j])
}

/// Insertion of one name into a normal-form sequence, keeping normal form.
pub open spec fn insert_canon(x: Seq<char>, s: Seq<Seq<char>>) -> Seq<Seq<char>>
    decreases s.len(),
{
    if s.len() == 0 {
        seq![x]
    } else if x == s[0] {
        s
    } else if lex_lt(x, s[0]) {
        seq![x] + s
    } else {
        seq![s[0]] + insert_canon(x, s.drop_first())
    }
}

/// The normal form of a sequence of names: the unique strictly sorted
/// sequence carrying the same set of names.
pub open spec fn canon(s: Seq<Seq<char>>) -> Seq<Seq<char>>
    decreases s.len(),
{
    if s.len() == 0 {
        Seq::<Seq<char>>::empty()
    } else {
        insert_canon(s.last(), canon(s.drop_last()))
    }
}

/// `insert_canon` keeps normal form and adds exactly the inserted name.
pub proof fn lemma_insert_canon(x: Seq<char>, s: Seq<Seq<char>>)
    requires
        sorted_unique(s),
    ensures
        sorted_unique(insert_canon(x, s)),
        forall|y: Seq<char>|
            #![trigger insert_canon(x, s).contains(y)]
            #![trigger s.contains(y)]
            insert_canon(x, s).contains(y) <==> (y == x || s.contains(y)),
    decreases s.len(),
{
    let r = insert_canon(x, s);
    if s.len() == 0 {
        assert forall|y: Seq<char>| r.contains(y) implies (y == x || s.contains(y)) by {
            let k = choose|k: int| 0 <= k < r.len() && r[k] == y;
            assert(r[0] == x);
        }
        assert(r.contains(x)) by {
            assert(r[0] == x);
        }
    } else if x == s[0] {
        assert(r == s);
    } else if lex_lt(x, s[0]) {
        assert forall|i: int, j: int| 0 <= i < j < r.len() implies lex_lt(r[i], r[j]) by {
            if i == 0 {
                assert(r[0] == x);
                assert(r[j] == s[j - 1]);
                if j == 1 {
                } else {
                    assert(lex_lt(s[0], s[j - 1]));
                    lemma_lex_le_transitive(x, s[0], s[j - 1]);
                    if x == s[j - 1] {
                        lemma_lex_le_antisymmetric(x, s[0]);
                    }
                }
            } else {
                assert(r[i] == s[i - 1] && r[j] == s[j - 1]);
            }
        }
        assert forall|y: Seq<char>| r.contains(y) implies (y == x || s.contains(y)) by {
            let k = choose|k: int| 0 <= k < r.len() && r[k] == y;
            if k > 0 {
                assert(s[k - 1] == y);
            }
        }
        assert forall|y: Seq<char>| (y == x || s.contains(y)) implies r.contains(y) by {
            if y == x {
                assert(r[0] == y);
            } else {
                let k = choose|k: int| 0 <= k < s.len() && s[k] == y;
                assert(r[k + 1] == y);
            }
        }
    } else {
        // x is strictly greater than the head: s[0] < x.
        lemma_lex_le_total(x, s[0]);
        assert(lex_lt(s[0], x)) by {
            if lex_le(x, s[0]) {
                lemma_lex_le_antisymmetric(x, s[0]);
            }
        }
        let t = s.drop_first();
        assert(sorted_unique(t)) by {
            assert forall|i: int, j: int| 0 <= i < j < t.len() implies lex_lt(t[i], t[j]) by {
                assert(t[i] == s[i + 1] && t[j] == s[j + 1]);
            }
        }
        lemma_insert_canon(x, t);
        let rt = insert_canon(x, t);
        assert(r == seq![s[0]] + rt);
        assert forall|i: int, j: int| 0 <= i < j < r.len() implies lex_lt(r[i], r[j]) by {
            if i == 0 {
                assert(r[0] == s[0]);
                assert(r[j] == rt[j - 1]);
                assert(rt.contains(rt[j - 1]));
                if rt[j - 1] == x {
                } else {
                    assert(t.contains(rt[j - 1]));
                    let k = choose|k: int| 0 <= k < t.len() && t[k] == rt[j - 1];
                    assert(t[k] == s[k + 1]);
                    assert(lex_lt(s[0], s[k + 1]));
                }
            } else {
                assert(r[i] == rt[i - 1] && r[j] == rt[j - 1]);
            }
        }
        assert forall|y: Seq<char>| r.contains(y) implies (y == x || s.contains(y)) by {
            let k = choose|k: int| 0 <= k < r.len() && r[k] == y;
            if k == 0 {
                assert(s[0] == y);
            } else {
                assert(rt[k - 1] == y);
                assert(rt.contains(y));
                assert(rt.contains(y) <==> (y == x || t.contains(y)));
                if y != x {
                    assert(t.contains(y));
                    let m = choose|m: int| 0 <= m < t.len() && t[m] == y;
                    assert(s[m + 1] == y);
                }
            }
        }
        assert forall|y: Seq<char>| (y == x || s.contains(y)) implies r.contains(y) by {
            assert(rt.contains(y) <==> (y == x || t.contains(y)));
            if y == x {
                assert(rt.contains(y));
                let m = choose|m: int| 0 <= m < rt.len() && rt[m] == y;
                assert(r[m + 1] == y);
            } else {
                let k = choose|k: int| 0 <= k < s.len() && s[k] == y;
                if k == 0 {
                    assert(r[0] == y);
                } else {
                    assert(t[k - 1] == y);
                    assert(t.contains(y));
                    assert(rt.contains(y));
                    let m = choose|m: int| 0 <= m < rt.len() && rt[m] == y;
                    assert(r[m + 1] == y);
                }
            }
        }
    }
}

/// The normal form is in normal form and carries exactly the input's names.
pub proof fn lemma_canon_props(s: Seq<Seq<char>>)
    ensures
        sorted_unique(canon(s)),
        forall|y: Seq<char>|
            #![trigger canon(s).contains(y)]
            #![trigger s.contains(y)]
            canon(s).contains(y) <==> s.contains(y),
    decreases s.len(),
{
    if s.len() == 0 {
    } else {
        let d = s.drop_last();
        lemma_canon_props(d);
        lemma_insert_canon(s.last(), canon(d));
        assert(canon(s) == insert_canon(s.last(), canon(d)));
        assert forall|y: Seq<char>| canon(s).contains(y) implies s.contains(y) by {
            assert(canon(s).contains(y) <==> (y == s.last() || canon(d).contains(y)));
            if y == s.last() {
                assert(s[s.len() - 1] == y);
            } else {
                assert(canon(d).contains(y));
                assert(d.contains(y));
                let k = choose|k: int| 0 <= k < d.len() && d[k] == y;
                assert(s[k] == y);
            }
        }
        assert forall|y: Seq<char>| s.contains(y) implies canon(s).contains(y) by {
            assert(canon(s).contains(y) <==> (y == s.last() || canon(d).contains(y)));
            let k = choose|k: int| 0 <= k < s.len() && s[k] == y;
            if k == s.len() - 1 {
                assert(y == s.last());
            } else {
                assert(d[k] == y);
                assert(d.contains(y));
            }
        }
    }
}

/// In a normal-form sequence the tail holds exactly the names other than the
/// head.
proof fn lemma_tail_contains(s: Seq<Seq<char>>, y: Seq<char>)
    requires
        sorted_unique(s),
        s.len() > 0,
    ensures
        s.drop_first().contains(y) <==> (s.contains(y) && y != s[0]),
{
    let t = s.drop_first();
    if t.contains(y) {
        let k = choose|k: int| 0 <= k < t.len() && t[k] == y;
        assert(s[k + 1] == y);
        assert(lex_lt(s[0], s[k + 1]));
        assert(s.contains(y));
    }
    if s.contains(y) && y != s[0] {
        let k = choose|k: int| 0 <= k < s.len() && s[k] == y;
        assert(k != 0);
        assert(t[k - 1] == y);
        assert(t.contains(y));
    }
}

/// Normal forms are canonical: two normal-form sequences carrying the same
/// set of names are the same sequence. This is what makes normalization
/// order-independent and idempotent.
pub proof fn lemma_sorted_unique_canonical(a: Seq<Seq<char>>, b: Seq<Seq<char>>)
    requires
        sorted_unique(a),
        sorted_unique(b),
        forall|y: Seq<char>| a.contains(y) <==> b.contains(y),
    ensures
        a == b,
    decreases a.len(),
{
    if a.len() == 0 {
        if b.len() > 0 {
            assert(b[0] == b[0]);
            assert(b.contains(b[0]));
            assert(a.contains(b[0]));
        }
        assert(a =~= b);
    } else {
        assert(a.contains(a[0]));
        assert(b.contains(a[0]));
        assert(b.len() > 0);
        assert(b.contains(b[0]));
        assert(a.contains(b[0]));
        let j = choose|j: int| 0 <= j < b.len() && b[j] == a[0];
        let i = choose|i: int| 0 <= i < a.len() && a[i] == b[0];
        assert(lex_le(b[0], a[0])) by {
            if j == 0 {
                lemma_lex_le_reflexive(a[0]);
            } else {
                assert(lex_lt(b[0], b[j]));
            }
        }
        assert(lex_le(a[0], b[0])) by {
            if i == 0 {
                lemma_lex_le_reflexive(b[0]);
            } else {
                assert(lex_lt(a[0], a[i]));
            }
        }
        lemma_lex_le_antisymmetric(a[0], b[0]);
        let ta = a.drop_first();
        let tb = b.drop_first();
        assert(sorted_unique(ta)) by {
            assert forall|p: int, q: int| 0 <= p < q < ta.len() implies lex_lt(ta[p], ta[q]) by {
                assert(ta[p] == a[p + 1] && ta[q] == a[q + 1]);
            }
        }
        assert(sorted_unique(tb)) by {
            assert forall|p: int, q: int| 0 <= p < q < tb.len() implies lex_lt(tb[p], tb[q]) by {
                assert(tb[p] == b[p + 1] && tb[q] == b[q + 1]);
            }
        }
        assert forall|y: Seq<char>| ta.contains(y) <==> tb.contains(y) by {
            lemma_tail_contains(a, y);
            lemma_tail_contains(b, y);
        }
        lemma_sorted_unique_canonical(ta, tb);
        assert(a =~= seq![a[0]] + ta);
        assert(b =~= seq![b[0]] + tb);
    }
}

/// Normalization is order-independent: inputs carrying the same set of names
/// have the same normal form.
pub proof fn lemma_canon_order_independent(s1: Seq<Seq<char>>, s2: Seq<Seq<char>>)
    requires
        forall|y: Seq<char>| s1.contains(y) <==> s2.contains(y),
    ensures
        canon(s1) == canon(s2),
{
    lemma_canon_props(s1);
    lemma_canon_props(s2);
    assert forall|y: Seq<char>| canon(s1).contains(y) <==> canon(s2).contains(y) by {
        assert(canon(s1).contains(y) <==> s1.contains(y));
        assert(canon(s2).contains(y) <==> s2.contains(y));
    }
    lemma_sorted_unique_canonical(canon(s1), canon(s2));
}

/// Normalization is idempotent: a sequence already in normal form is its own
/// normal form, so normalizing twice changes nothing further.
pub proof fn lemma_canon_idempotent(s: Seq<Seq<char>>)
    requires
        sorted_unique(s),
    ensures
        canon(s) == s,
{
    lemma_canon_props(s);
    lemma_sorted_unique_canonical(canon(s), s);
}

/// Insert one name into a vector kept in normal form; a duplicate leaves the
/// vector unchanged.
#[verifier::rlimit(50)]
fn insert_sorted(v: &mut Vec<String>, x: String)
    requires
        sorted_unique(old(v).deep_view()),
    ensures
        sorted_unique(final(v).deep_view()),
        forall|y: Seq<char>|
            final(v).deep_view().contains(y) <==> (y == x@ || old(v).deep_view().contains(y)),
{
    let ghost dv0 = v.deep_view();
    let mut idx: usize = 0;
    while idx < v.len()
        invariant
            sorted_unique(v.deep_view()),
            v.deep_view() == dv0,
            dv0 == old(v).deep_view(),
            idx <= v.len(),
            forall|k: int| 0 <= k < idx ==> !lex_le(x@, dv0[k]),
        decreases v.len() - idx,
    {
        if str_le(x.as_str(), v[idx].as_str()) {
            // Found the first position at or after which x belongs.
            if str_eq(x.as_str(), v[idx].as_str()) {
                assert(dv0[idx as int] == x@);
                assert(dv0.contains(x@));
                return ;
            }
            let ghost pos = idx as int;
            let ghost w0 = v@;
            v.insert(idx, x);
            proof {
                w0.insert_ensures(pos, x);
                dv0.insert_ensures(pos, x@);
                assert(v.deep_view() =~= dv0.insert(pos, x@)) by {
                    assert(v@.len() == dv0.len() + 1);
                    assert forall|k: int| 0 <= k < v@.len() implies v.deep_view()[k] == dv0.insert(
                        pos,
                        x@,
                    )[k] by {
                        if k < pos {
                            assert(v@[k] == w0[k]);
                        } else if k == pos {
                            assert(v@[k] == x);
                        } else {
                            assert(v@[k] == w0[k - 1]);
                        }
                    }
                }
                let dv = v.deep_view();
                assert forall|i: int, j: int| 0 <= i < j < dv.len() implies lex_lt(dv[i], dv[j]) by {
                    if j < pos {
                        assert(dv[i] == dv0[i] && dv[j] == dv0[j]);
                    } else if i < pos && j == pos {
                        assert(dv[i] == dv0[i] && dv[j] == x@);
                        assert(!lex_le(x@, dv0[i]));
                        lemma_lex_le_total(x@, dv0[i]);
                    } else if i < pos && j > pos {
                        assert(dv[i] == dv0[i] && dv[j] == dv0[j - 1]);
                        assert(lex_lt(dv0[i], dv0[j - 1])) by {
                            if i == j - 1 {
                                assert(!lex_le(x@, dv0[i]));
                                lemma_lex_le_total(x@, dv0[i]);
                                assert(lex_lt(dv0[i], x@));
                                assert(lex_le(x@, dv0[pos]));
                                lemma_lex_le_transitive(dv0[i], x@, dv0[pos]);
                                assert(dv0[i] != dv0[pos]) by {
                                    if dv0[i] == dv0[pos] {
                                        lemma_lex_le_antisymmetric(dv0[i], x@);
                                    }
                                }
                            }
                        }
                    } else if i == pos {
                        assert(dv[i] == x@ && dv[j] == dv0[j - 1]);
                        assert(lex_le(x@, dv0[pos]));
                        assert(lex_lt(x@, dv0[j - 1])) by {
                            if j - 1 == pos {
                                assert(x@ != dv0[pos]);
                            } else {
                                assert(lex_lt(dv0[pos], dv0[j - 1]));
                                lemma_lex_le_transitive(x@, dv0[pos], dv0[j - 1]);
                                assert(x@ != dv0[j - 1]) by {
                                    if x@ == dv0[j - 1] {
                                        lemma_lex_le_antisymmetric(x@, dv0[pos]);
                                    }
                                }
                            }
                        }
                    } else {
                        assert(dv[i] == dv0[i - 1] && dv[j] == dv0[j - 1]);
                    }
                }
                assert forall|y: Seq<char>| dv.contains(y) implies (y == x@ || dv0.contains(
                    y,
                )) by {
                    let k = choose|k: int| 0 <= k < dv.len() && dv[k] == y;
                    if k < pos {
                        assert(dv0[k] == y);
                    } else if k > pos {
                        assert(dv0[k - 1] == y);
                    }
                }
                assert forall|y: Seq<char>| (y == x@ || dv0.contains(y)) implies dv.contains(
                    y,
                ) by {
                    if y == x@ {
                        assert(dv[pos] == y);
                    } else {
                        let k = choose|k: int| 0 <= k < dv0.len() && dv0[k] == y;
                        if k < pos {
                            assert(dv[k] == y);
                        } else {
                            assert(dv[k + 1] == y);
                        }
                    }
                }
            }
            return ;
        }
        idx = idx + 1;
    }
    // x is strictly greater than every element: append it.
    let ghost pos = v.len() as int;
    let ghost w0 = v@;
    v.push(x);
    proof {
        assert(v@ == w0.push(x));
        assert(v.deep_view() =~= dv0.push(x@)) by {
            assert forall|k: int| 0 <= k < v@.len() implies v.deep_view()[k] == dv0.push(x@)[k] by {
                if k < pos {
                    assert(v@[k] == w0.push(x)[k]);
                    assert(v@[k] == w0[k]);
                } else {
                    assert(v@[k] == w0.push(x)[k]);
                }
            }
        }
        let dv = v.deep_view();
        assert forall|i: int, j: int| 0 <= i < j < dv.len() implies lex_lt(dv[i], dv[j]) by {
            if j == pos {
                assert(dv[i] == dv0[i] && dv[j] == x@);
                assert(!lex_le(x@, dv0[i]));
                lemma_lex_le_total(x@, dv0[i]);
            } else {
                assert(dv[i] == dv0[i] && dv[j] == dv0[j]);
            }
        }
        assert forall|y: Seq<char>| dv.contains(y) implies (y == x@ || dv0.contains(y)) by {
            let k = choose|k: int| 0 <= k < dv.len() && dv[k] == y;
            if k < pos {
                assert(dv0[k] == y);
            }
        }
        assert forall|y: Seq<char>| (y == x@ || dv0.contains(y)) implies dv.contains(y) by {
            if y == x@ {
                assert(dv[pos] == y);
            } else {
                let k = choose|k: int| 0 <= k < dv0.len() && dv0[k] == y;
                assert(dv[k] == y);
            }
        }
    }
}

/// Normalize a reported list of game names: sort by name and drop
/// duplicates. The result is the unique normal form of the input, so inputs
/// listing the same games in any order and with any repetitions normalize to
/// the same vector, and a vector already in normal form comes back unchanged.
pub fn normalize_games(games: &Vec<String>) -> (r: Vec<String>)
    ensures
        r.deep_view() == canon(games.deep_view()),
        sorted_unique(r.deep_view()),
        forall|y: Seq<char>| r.deep_view().contains(y) <==> games.deep_view().contains(y),
{
    let mut r: Vec<String> = Vec::new();
    let mut i: usize = 0;
    while i < games.len()
        invariant
            i <= games.len(),
            sorted_unique(r.deep_view()),
            forall|y: Seq<char>|
                r.deep_view().contains(y) <==> games.deep_view().subrange(0, i as int).contains(y),
        decreases games.len() - i,
    {
        let ghost before = r.deep_view();
        insert_sorted(&mut r, games[i].clone());
        proof {
            let pre = games.deep_view().subrange(0, i as int);
            let post = games.deep_view().subrange(0, i + 1);
            assert(post =~= pre.push(games.deep_view()[i as int]));
            assert forall|y: Seq<char>| r.deep_view().contains(y) <==> post.contains(y) by {
                assert(post[post.len() - 1] == games.deep_view()[i as int]);
                if post.contains(y) {
                    let k = choose|k: int| 0 <= k < post.len() && post[k] == y;
                    if k < pre.len() {
                        assert(pre[k] == y);
                        assert(pre.contains(y));
                    }
                }
                if pre.contains(y) {
                    let k = choose|k: int| 0 <= k < pre.len() && pre[k] == y;
                    assert(post[k] == y);
                }
            }
        }
        i = i + 1;
    }
    proof {
        assert(games.deep_view().subrange(0, games.len() as int) =~= games.deep_view());
        lemma_canon_props(games.deep_view());
        lemma_sorted_unique_canonical(r.deep_view(), canon(games.deep_view()));
    }
    r
}

} // verus!
