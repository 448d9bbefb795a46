//! Totals per name: lists of (name, amount) pairs in which each name occurs
//! once, with amounts added up.
use vstd::prelude::*;
use crate::fractional_number::{FractionalNumber, add_fits};
use crate::rational::{normalized, qeq, qadd, qwf, qcanon, lemma_qcanon, lemma_qadd_cong, lemma_qeq_trans, lemma_qwf_ops};

verus! {

/// No name occurs twice.
pub open spec fn keys_unique(s: Seq<(Seq<char>, (int, int))>) -> bool {
    forall|i: int, j: int| 0 <= i < j < s.len() ==> (#[trigger] s[i]).0 != (#[trigger] s[j]).0
}

/// Every amount is well formed.
pub open spec fn amounts_wf(s: Seq<(Seq<char>, (int, int))>) -> bool {
    forall|i: int| 0 <= i < s.len() ==> qwf((#[trigger] s[i]).1)
}

/// Add `v` to the amount of `k`, or append `(k, v)` where `k` is new.
pub open spec fn assoc_add(s: Seq<(Seq<char>, (int, int))>, k: Seq<char>, v: (int, int)) -> Seq<(Seq<char>, (int, int))> {
    if exists|i: int| 0 <= i < s.len() && (#[trigger] s[i]).0 == k {
        let i = choose|i: int| 0 <= i < s.len() && (#[trigger] s[i]).0 == k;
        s.update(i, (k, qadd(s[i].1, v)))
    } else {
        s.push((k, v))
    }
}

/// The names and amounts of a list of totals.
pub open spec fn assoc_view(v: Seq<(String, FractionalNumber)>) -> Seq<(Seq<char>, (int, int))> {
    v.map_values(|e: (String, FractionalNumber)| (e.0@, e.1@))
}

/// The same names in the same order, with equal amounts.
pub open spec fn assoc_eq(a: Seq<(Seq<char>, (int, int))>, b: Seq<(Seq<char>, (int, int))>) -> bool {
    &&& a.len() == b.len()
    &&& forall|i: int| 0 <= i < a.len() ==> (#[trigger] a[i]).0 == b[i].0 && qeq(a[i].1, b[i].1)
}

/// Adding equal amounts gives equal totals.
pub proof fn lemma_assoc_add_cong(s: Seq<(Seq<char>, (int, int))>, k: Seq<char>, a: (int, int), b: (int, int))
    requires
        amounts_wf(s),
        keys_unique(s),
        qwf(a),
        qwf(b),
        qeq(a, b),
    ensures
        assoc_eq(assoc_add(s, k, a), assoc_add(s, k, b)),
        amounts_wf(assoc_add(s, k, a)),
{
    let x = assoc_add(s, k, a);
    let y = assoc_add(s, k, b);
    if exists|i: int| 0 <= i < s.len() && (#[trigger] s[i]).0 == k {
        let i = choose|i: int| 0 <= i < s.len() && (#[trigger] s[i]).0 == k;
        assert forall|j: int| 0 <= j < s.len() && (#[trigger] s[j]).0 == k implies j == i by {
            if j < i {
                assert(s[j].0 != s[i].0);
            } else if j > i {
                assert(s[i].0 != s[j].0);
            }
        }
        crate::rational::lemma_qeq_refl(s[i].1);
        lemma_qadd_cong(s[i].1, s[i].1, a, b);
        lemma_qwf_ops(s[i].1, a);
        assert(x == s.update(i, (k, qadd(s[i].1, a))));
        assert(y == s.update(i, (k, qadd(s[i].1, b))));
        assert forall|q: int| 0 <= q < x.len() implies (#[trigger] x[q]).0 == y[q].0 && qeq(x[q].1, y[q].1) by {
            if q != i {
                crate::rational::lemma_qeq_refl(x[q].1);
            }
        }
        assert forall|q: int| 0 <= q < x.len() implies qwf((#[trigger] x[q]).1) by {}
    } else {
        assert(x == s.push((k, a)));
        assert(y == s.push((k, b)));
        assert forall|q: int| 0 <= q < x.len() implies (#[trigger] x[q]).0 == y[q].0 && qeq(x[q].1, y[q].1) by {
            if q < s.len() {
                crate::rational::lemma_qeq_refl(x[q].1);
            }
        }
        assert forall|q: int| 0 <= q < x.len() implies qwf((#[trigger] x[q]).1) by {}
    }
}

/// Equal totals are transitive.
pub proof fn lemma_assoc_eq_trans(a: Seq<(Seq<char>, (int, int))>, b: Seq<(Seq<char>, (int, int))>, c: Seq<(Seq<char>, (int, int))>)
    requires
        assoc_eq(a, b),
        assoc_eq(b, c),
        amounts_wf(b),
    ensures
        assoc_eq(a, c),
{
    assert forall|q: int| 0 <= q < a.len() implies (#[trigger] a[q]).0 == c[q].0 && qeq(a[q].1, c[q].1) by {
        assert(qeq(a[q].1, b[q].1));
        assert(qeq(b[q].1, c[q].1));
        lemma_qeq_trans(a[q].1, b[q].1, c[q].1);
    }
}

/// Totals with the same names in the same order keep their names unique.
pub proof fn lemma_assoc_eq_keys(a: Seq<(Seq<char>, (int, int))>, b: Seq<(Seq<char>, (int, int))>)
    requires
        assoc_eq(a, b),
        keys_unique(b),
    ensures
        keys_unique(a),
{
    assert forall|i: int, j: int| 0 <= i < j < a.len() implies (#[trigger] a[i]).0 != (#[trigger] a[j]).0 by {
        assert(a[i].0 == b[i].0 && a[j].0 == b[j].0);
    }
}

/// Every amount of the list is in lowest terms.
pub open spec fn amounts_normalized(l: Seq<(String, FractionalNumber)>) -> bool {
    forall|j: int| 0 <= j < l.len() ==> normalized((#[trigger] l[j]).1@)
}

/// The totals with each amount in lowest terms.
pub open spec fn canon_totals(t: Seq<(Seq<char>, (int, int))>) -> Seq<(Seq<char>, (int, int))> {
    t.map_values(|e: (Seq<char>, (int, int))| (e.0, qcanon(e.1)))
}

/// A list in lowest terms equal to some totals holds those totals in lowest terms.
pub proof fn lemma_canon_totals(l: Seq<(String, FractionalNumber)>, t: Seq<(Seq<char>, (int, int))>)
    requires
        amounts_normalized(l),
        assoc_eq(assoc_view(l), t),
        amounts_wf(t),
    ensures
        assoc_view(l) == canon_totals(t),
{
    assert forall|j: int| 0 <= j < t.len() implies #[trigger] assoc_view(l)[j] == canon_totals(t)[j] by {
        assert(assoc_view(l)[j] == (l[j].0@, l[j].1@));
        lemma_qcanon(l[j].1@, t[j].1);
    }
    assert(assoc_view(l) =~= canon_totals(t));
}

/// Adding `v` to the total of `k` fits in 64-bit integers, the total kept in
/// lowest terms (there is nothing to add to where `k` is new).
pub open spec fn add_fits_at(s: Seq<(Seq<char>, (int, int))>, k: Seq<char>, v: (int, int)) -> bool {
    forall|j: int| 0 <= j < s.len() && (#[trigger] s[j]).0 == k ==> add_fits(qcanon(s[j].1), v)
}

/// Add `v` to the total of `k` in `list`. Returns false, changing nothing,
/// where the sum does not fit in 64-bit integers.
pub fn assoc_add_exec(list: &mut Vec<(String, FractionalNumber)>, k: &String, v: FractionalNumber, Ghost(s): Ghost<Seq<(Seq<char>, (int, int))>>) -> (ok: bool)
    requires
        assoc_eq(assoc_view(old(list)@), s),
        keys_unique(s),
        amounts_wf(s),
    ensures
        ok ==> assoc_eq(assoc_view(final(list)@), assoc_add(s, k@, v@)),
        ok ==> keys_unique(assoc_add(s, k@, v@)) && amounts_wf(assoc_add(s, k@, v@)),
        !ok ==> final(list)@ == old(list)@,
        ok <==> forall|j: int| 0 <= j < old(list)@.len() && (#[trigger] old(list)@[j]).0@ == k@ ==> add_fits(
            old(list)@[j].1@,
            v@,
        ),
        ok <==> add_fits_at(s, k@, v@),
        amounts_normalized(old(list)@) ==> amounts_normalized(final(list)@),
{
    proof {
        use_type_invariant(&v);
    }
    let ghost a = assoc_view(list@);
    let mut i: usize = 0;
    while i < list.len()
        invariant
            0 <= i <= list@.len(),
            a == assoc_view(list@),
            list@ == old(list)@,
            assoc_eq(a, s),
            keys_unique(s),
            amounts_wf(s),
            qwf(v@),
            forall|j: int| 0 <= j < i ==> (#[trigger] s[j]).0 != k@,
        decreases list.len() - i,
    {
        proof {
            assert(a[i as int].0 == list@[i as int].0@);
            assert(a[i as int].0 == s[i as int].0);
        }
        if list[i].0 == *k {
            let cur = list[i].1;
            proof {
                use_type_invariant(&cur);
                assert(a[i as int] == (list@[i as int].0@, cur@));
                lemma_qcanon(cur@, s[i as int].1);
                assert forall|j: int| 0 <= j < s.len() && (#[trigger] s[j]).0 == k@ implies j == i by {
                    if j < i {
                        assert(s[j].0 != k@);
                    } else if j > i {
                        assert(s[i as int].0 != s[j].0);
                    }
                }
            }
            match cur.checked_add(v) {
                Some(sum) => {
                    let name = k.clone();
                    let ghost before = list@;
                    list.set(i, (name, sum));
                    proof {
                        use_type_invariant(&sum);
                        if amounts_normalized(before) {
                            assert forall|j: int| 0 <= j < list@.len() implies normalized((#[trigger] list@[j]).1@) by {
                                if j != i {
                                    assert(list@[j] == before[j]);
                                }
                            }
                        }
                        assert(s[i as int].0 == k@);
                        let j = choose|j: int| 0 <= j < s.len() && (#[trigger] s[j]).0 == k@;
                        if j < i {
                            assert(s[j].0 != k@);
                        } else if j > i {
                            assert(s[i as int].0 != s[j].0);
                        }
                        let t = assoc_add(s, k@, v@);
                        assert(t == s.update(i as int, (k@, qadd(s[i as int].1, v@))));
                        lemma_qwf_ops(s[i as int].1, v@);
                        lemma_qadd_cong(cur@, s[i as int].1, v@, v@);
                        lemma_qeq_trans(sum@, qadd(cur@, v@), qadd(s[i as int].1, v@));
                        let nv = assoc_view(list@);
                        assert forall|q: int| 0 <= q < nv.len() implies (#[trigger] nv[q]).0 == t[q].0 && qeq(nv[q].1, t[q].1) by {
                            if q != i {
                                assert(nv[q] == a[q]);
                            }
                        }
                        assert forall|j: int| 0 <= j < before.len() && (#[trigger] before[j]).0@ == k@ implies add_fits(
                            before[j].1@,
                            v@,
                        ) by {
                            assert(a[j].0 == s[j].0);
                            if j < i {
                                assert(s[j].0 != k@);
                            } else if j > i {
                                assert(s[i as int].0 != s[j].0);
                            }
                        }
                    }
                    return true;
                },
                None => {
                    proof {
                        assert(list@[i as int].0@ == k@);
                    }
                    return false;
                },
            }
        }
        i += 1;
    }
    proof {
        assert forall|j: int| 0 <= j < list@.len() && (#[trigger] list@[j]).0@ == k@ implies add_fits(list@[j].1@, v@) by {
            assert(a[j].0 == s[j].0);
        }
    }
    let name = k.clone();
    let ghost before = list@;
    list.push((name, v));
    proof {
        if amounts_normalized(before) {
            assert forall|j: int| 0 <= j < list@.len() implies normalized((#[trigger] list@[j]).1@) by {
                if j < before.len() {
                    assert(list@[j] == before[j]);
                }
            }
        }
        assert(!(exists|j: int| 0 <= j < s.len() && (#[trigger] s[j]).0 == k@));
        let t = assoc_add(s, k@, v@);
        let nv = assoc_view(list@);
        assert forall|q: int| 0 <= q < nv.len() implies (#[trigger] nv[q]).0 == t[q].0 && qeq(nv[q].1, t[q].1) by {
            if q < a.len() {
                assert(nv[q] == a[q]);
            }
        }
    }
    true
}

} // verus!
