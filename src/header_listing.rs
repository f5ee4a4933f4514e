//! The reported headers as a listing sorted by name, one entry per name, the
//! last value of a repeated header winning.
use vstd::prelude::*;
use crate::client_ip::{headers_view, reported_headers, reported_spec, Header};
use crate::text::chars_of;

verus! {

/// `a` comes before `b` in the order of their characters' code points.
pub open spec fn lex_lt(a: Seq<char>, b: Seq<char>) -> bool
    decreases a.len(),
{
    if a.len() == 0 {
        b.len() > 0
    } else if b.len() == 0 {
        false
    } else if a[0] != b[0] {
        a[0] < b[0]
    } else {
        lex_lt(a.drop_first(), b.drop_first())
    }
}

pub proof fn lemma_lex_irreflexive(a: Seq<char>)
    ensures
        !lex_lt(a, a),
    decreases a.len(),
{
    if a.len() > 0 {
        lemma_lex_irreflexive(a.drop_first());
    }
}

pub proof fn lemma_lex_transitive(a: Seq<char>, b: Seq<char>, c: Seq<char>)
    requires
        lex_lt(a, b),
        lex_lt(b, c),
    ensures
        lex_lt(a, c),
    decreases a.len(),
{
    if a.len() > 0 && b.len() > 0 && c.len() > 0 && a[0] == b[0] && b[0] == c[0] {
        lemma_lex_transitive(a.drop_first(), b.drop_first(), c.drop_first());
    }
}

pub proof fn lemma_lex_total(a: Seq<char>, b: Seq<char>)
    requires
        a != b,
    ensures
        lex_lt(a, b) || lex_lt(b, a),
    decreases a.len(),
{
    if a.len() > 0 && b.len() > 0 && a[0] == b[0] {
        if a.drop_first() == b.drop_first() {
            assert(a =~= seq![a[0]] + a.drop_first());
            assert(b =~= seq![b[0]] + b.drop_first());
        }
        lemma_lex_total(a.drop_first(), b.drop_first());
    } else if a.len() == 0 && b.len() == 0 {
        assert(a =~= b);
    }
}

/// Names to values, a later header replacing an earlier one of the same name.
pub open spec fn header_map(hs: Seq<(Seq<char>, Seq<char>)>) -> Map<Seq<char>, Seq<char>>
    decreases hs.len(),
{
    if hs.len() == 0 {
        Map::empty()
    } else {
        header_map(hs.drop_last()).insert(hs.last().0, hs.last().1)
    }
}

/// Strictly increasing names.
pub open spec fn sorted_by_name(r: Seq<(Seq<char>, Seq<char>)>) -> bool {
    forall|i: int, j: int| 0 <= i < j < r.len() ==> lex_lt(#[trigger] r[i].0, #[trigger] r[j].0)
}

/// `r` lists exactly the names of `m`, each with its value.
pub open spec fn lists(r: Seq<(Seq<char>, Seq<char>)>, m: Map<Seq<char>, Seq<char>>) -> bool {
    &&& forall|i: int| 0 <= i < r.len() ==> #[trigger] m.contains_key(r[i].0) && m[r[i].0] == r[i].1
    &&& forall|k: Seq<char>| #[trigger] m.contains_key(k) ==> exists|i: int| 0 <= i < r.len() && r[i].0 == k
}

/// Whether `a` comes before `b`.
fn lex_less(a: &Vec<char>, b: &Vec<char>) -> (r: bool)
    ensures
        r == lex_lt(a@, b@),
{
    let mut i: usize = 0;
    assert(a@.skip(0) =~= a@);
    assert(b@.skip(0) =~= b@);
    while i < a.len() && i < b.len() && a[i] == b[i]
        invariant
            i <= a.len(),
            i <= b.len(),
            lex_lt(a@.skip(i as int), b@.skip(i as int)) == lex_lt(a@, b@),
        decreases a.len() - i,
    {
        assert(a@.skip(i as int).drop_first() =~= a@.skip(i + 1));
        assert(b@.skip(i as int).drop_first() =~= b@.skip(i + 1));
        i = i + 1;
    }
    if i == a.len() {
        i < b.len()
    } else if i == b.len() {
        false
    } else {
        a[i] < b[i]
    }
}

proof fn lemma_sorted_distinct(r: Seq<(Seq<char>, Seq<char>)>, i: int, j: int)
    requires
        sorted_by_name(r),
        0 <= i < r.len(),
        0 <= j < r.len(),
        i != j,
    ensures
        r[i].0 != r[j].0,
{
    if i < j {
        assert(lex_lt(r[i].0, r[j].0));
        if r[i].0 == r[j].0 {
            lemma_lex_irreflexive(r[i].0);
        }
    } else {
        assert(lex_lt(r[j].0, r[i].0));
        if r[i].0 == r[j].0 {
            lemma_lex_irreflexive(r[i].0);
        }
    }
}

/// The reported headers sorted by name, one entry per name: where a name
/// repeats, its last value.
pub fn sorted_reported_headers(request_headers: &Vec<Header>) -> (r: Vec<Header>)
    ensures
        sorted_by_name(headers_view(r@)),
        lists(headers_view(r@), header_map(reported_spec(headers_view(request_headers@)))),
{
    let hs = reported_headers(request_headers);
    let ghost hv = headers_view(hs@);
    let mut r: Vec<Header> = Vec::new();
    let mut i: usize = 0;
    while i < hs.len()
        invariant
            i <= hs.len(),
            hv == headers_view(hs@),
            hv == reported_spec(headers_view(request_headers@)),
            sorted_by_name(headers_view(r@)),
            lists(headers_view(r@), header_map(hv.take(i as int))),
        decreases hs.len() - i,
    {
        let ghost old_r = headers_view(r@);
        let ghost m0 = header_map(hv.take(i as int));
        let name = chars_of(hs[i].0.as_str());
        let ghost nm = hs@[i as int].0@;
        let ghost val = hs@[i as int].1@;
        assert(hv.take(i + 1).drop_last() =~= hv.take(i as int));
        assert(header_map(hv.take(i + 1)) == m0.insert(nm, val));
        let mut p: usize = 0;
        while p < r.len() && lex_less(&chars_of(r[p].0.as_str()), &name)
            invariant
                p <= r.len(),
                old_r == headers_view(r@),
                name@ == nm,
                forall|k: int| 0 <= k < p ==> lex_lt(#[trigger] old_r[k].0, nm),
            decreases r.len() - p,
        {
            p = p + 1;
        }
        let same = p < r.len() && crate::media_type::vec_eq(&chars_of(r[p].0.as_str()), &name);
        let entry = (hs[i].0.clone(), hs[i].1.clone());
        proof {
            assert forall|k: int| p <= k < old_r.len() implies !lex_lt(#[trigger] old_r[k].0, nm) by {
                if k > p && lex_lt(old_r[k].0, nm) {
                    assert(lex_lt(old_r[p as int].0, old_r[k].0));
                    lemma_lex_transitive(old_r[p as int].0, old_r[k].0, nm);
                }
            }
        }
        if same {
            assert(old_r[p as int].0 == nm);
            r.set(p, entry);
            proof {
                let new_r = headers_view(r@);
                assert(new_r =~= old_r.update(p as int, (nm, val)));
                assert forall|a: int, b: int| 0 <= a < b < new_r.len() implies lex_lt(
                    #[trigger] new_r[a].0,
                    #[trigger] new_r[b].0,
                ) by {
                    assert(lex_lt(old_r[a].0, old_r[b].0));
                }
                let m1 = m0.insert(nm, val);
                assert forall|k: int| 0 <= k < new_r.len() implies #[trigger] m1.contains_key(
                    new_r[k].0,
                ) && m1[new_r[k].0] == new_r[k].1 by {
                    if k != p {
                        assert(m0.contains_key(old_r[k].0));
                        lemma_sorted_distinct(old_r, k, p as int);
                        assert(old_r[k].0 != nm);
                    }
                }
                assert forall|key: Seq<char>| #[trigger] m1.contains_key(key) implies exists|k: int|
                    0 <= k < new_r.len() && new_r[k].0 == key by {
                    if key == nm {
                        assert(new_r[p as int].0 == key);
                    } else {
                        let k = choose|k: int| 0 <= k < old_r.len() && old_r[k].0 == key;
                        assert(new_r[k].0 == key);
                    }
                }
            }
        } else {
            r.insert(p, entry);
            proof {
                let new_r = headers_view(r@);
                assert(new_r =~= old_r.insert(p as int, (nm, val)));
                if p < old_r.len() {
                    assert(old_r[p as int].0 != nm);
                    lemma_lex_total(old_r[p as int].0, nm);
                }
                assert forall|a: int, b: int| 0 <= a < b < new_r.len() implies lex_lt(
                    #[trigger] new_r[a].0,
                    #[trigger] new_r[b].0,
                ) by {
                    if b < p {
                        assert(lex_lt(old_r[a].0, old_r[b].0));
                    } else if b == p {
                    } else if a < p {
                        assert(lex_lt(old_r[a].0, nm));
                        if b - 1 > p {
                            assert(lex_lt(old_r[p as int].0, old_r[b - 1].0));
                            lemma_lex_transitive(nm, old_r[p as int].0, old_r[b - 1].0);
                        }
                        lemma_lex_transitive(old_r[a].0, nm, old_r[b - 1].0);
                    } else if a == p {
                        if b - 1 > p {
                            assert(lex_lt(old_r[p as int].0, old_r[b - 1].0));
                            lemma_lex_transitive(nm, old_r[p as int].0, old_r[b - 1].0);
                        }
                    } else {
                        assert(lex_lt(old_r[a - 1].0, old_r[b - 1].0));
                    }
                }
                let m1 = m0.insert(nm, val);
                assert forall|k: int| 0 <= k < new_r.len() implies #[trigger] m1.contains_key(
                    new_r[k].0,
                ) && m1[new_r[k].0] == new_r[k].1 by {
                    if k < p {
                        assert(m0.contains_key(old_r[k].0));
                        assert(lex_lt(old_r[k].0, nm));
                        if old_r[k].0 == nm {
                            lemma_lex_irreflexive(nm);
                        }
                    } else if k > p {
                        assert(m0.contains_key(old_r[k - 1].0));
                        assert(!lex_lt(old_r[k - 1].0, nm));
                        if k - 1 > p {
                            assert(lex_lt(old_r[p as int].0, old_r[k - 1].0));
                            lemma_lex_transitive(nm, old_r[p as int].0, old_r[k - 1].0);
                        }
                        if old_r[k - 1].0 == nm {
                            lemma_lex_irreflexive(nm);
                        }
                    }
                }
                assert forall|key: Seq<char>| #[trigger] m1.contains_key(key) implies exists|k: int|
                    0 <= k < new_r.len() && new_r[k].0 == key by {
                    if key == nm {
                        assert(new_r[p as int].0 == key);
                    } else {
                        let k = choose|k: int| 0 <= k < old_r.len() && old_r[k].0 == key;
                        if k < p {
                            assert(new_r[k].0 == key);
                        } else {
                            assert(new_r[k + 1].0 == key);
                        }
                    }
                }
            }
        }
        i = i + 1;
    }
    assert(hv.take(hs.len() as int) =~= hv);
    r
}

} // verus!
