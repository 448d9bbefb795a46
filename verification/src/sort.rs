//! Names in byte order, as item names are listed.
use vstd::prelude::*;
use vstd::utf8::encode_utf8;
use crate::bytes::{byte_rank, byte_compare, lemma_rank_antisym, lemma_rank_trans};

verus! {

/// The characters of some strings.
pub open spec fn names_view(v: Seq<String>) -> Seq<Seq<char>> {
    v.map_values(|s: String| s@)
}

/// The names come in byte order.
pub open spec fn names_sorted(ks: Seq<Seq<char>>) -> bool {
    forall|i: int, j: int| 0 <= i < j < ks.len() ==> byte_rank(encode_utf8(#[trigger] ks[i]), encode_utf8(#[trigger] ks[j])) <= 0
}

/// The names in byte order; `names` holds each name once.
pub fn sorted_names(names: &Vec<String>) -> (r: Vec<String>)
    requires
        names_view(names@).no_duplicates(),
    ensures
        r@.len() == names@.len(),
        names_sorted(names_view(r@)),
        names_view(r@).no_duplicates(),
        forall|k: Seq<char>| names_view(r@).contains(k) <==> names_view(names@).contains(k),
{
    let mut r: Vec<String> = Vec::new();
    let mut i: usize = 0;
    while i < names.len()
        invariant
            0 <= i <= names@.len(),
            names_view(names@).no_duplicates(),
            r@.len() == i,
            names_sorted(names_view(r@)),
            names_view(r@).no_duplicates(),
            forall|k: Seq<char>| names_view(r@).contains(k) <==> names_view(names@).subrange(0, i as int).contains(k),
        decreases names.len() - i,
    {
        let e = &names[i];
        let ghost ev = e@;
        let ghost old_r = names_view(r@);
        let mut p: usize = 0;
        while p < r.len() && byte_compare(e.as_str(), r[p].as_str()) >= 0
            invariant
                0 <= p <= r@.len(),
                old_r == names_view(r@),
                ev == e@,
                forall|q: int| 0 <= q < p ==> byte_rank(encode_utf8(ev), encode_utf8(#[trigger] old_r[q])) >= 0,
            decreases r.len() - p,
        {
            p += 1;
        }
        proof {
            assert(!old_r.contains(ev)) by {
                if old_r.contains(ev) {
                    let q = choose|q: int| 0 <= q < old_r.len() && old_r[q] == ev;
                    assert(names_view(names@).subrange(0, i as int).contains(ev));
                    let t = choose|t: int| 0 <= t < i && names_view(names@).subrange(0, i as int)[t] == ev;
                    assert(names_view(names@)[t] == names_view(names@)[i as int]);
                }
            }
        }
        r.insert(p, e.clone());
        proof {
            let nr = names_view(r@);
            assert(nr =~= old_r.insert(p as int, ev));
            assert forall|a: int, b: int| 0 <= a < b < nr.len() implies byte_rank(encode_utf8(#[trigger] nr[a]), encode_utf8(#[trigger] nr[b])) <= 0 by {
                if b < p {
                    assert(nr[a] == old_r[a] && nr[b] == old_r[b]);
                } else if a > p {
                    assert(nr[a] == old_r[a - 1] && nr[b] == old_r[b - 1]);
                } else if a == p {
                    // e before old_r[b-1], which is at or after p
                    assert(nr[b] == old_r[b - 1]);
                    if p < old_r.len() {
                        assert(byte_rank(encode_utf8(ev), encode_utf8(old_r[p as int])) < 0);
                        if b - 1 > p {
                            lemma_rank_trans(encode_utf8(ev), encode_utf8(old_r[p as int]), encode_utf8(old_r[b - 1]));
                        }
                    }
                } else if b == p {
                    assert(nr[a] == old_r[a]);
                    lemma_rank_antisym(encode_utf8(ev), encode_utf8(old_r[a]));
                } else {
                    assert(a < p && b > p);
                    assert(nr[a] == old_r[a] && nr[b] == old_r[b - 1]);
                }
            }
            let s_i = names_view(names@).subrange(0, i as int);
            let s_i1 = names_view(names@).subrange(0, i + 1);
            assert(s_i1 =~= s_i.push(ev));
            assert forall|k: Seq<char>| nr.contains(k) <==> s_i1.contains(k) by {
                if nr.contains(k) {
                    let q = choose|q: int| 0 <= q < nr.len() && nr[q] == k;
                    if q != p {
                        let fq = if q < p { q } else { q - 1 };
                        assert(old_r[fq] == k);
                        assert(old_r.contains(k));
                        assert(s_i.contains(k));
                        let t = choose|t: int| 0 <= t < s_i.len() && s_i[t] == k;
                        assert(s_i1[t] == k);
                    } else {
                        assert(s_i1[i as int] == k);
                    }
                }
                if s_i1.contains(k) {
                    let t = choose|t: int| 0 <= t < s_i1.len() && s_i1[t] == k;
                    if t < i {
                        assert(s_i[t] == k);
                        assert(s_i.contains(k));
                        assert(old_r.contains(k));
                        let q = choose|q: int| 0 <= q < old_r.len() && old_r[q] == k;
                        if q < p {
                            assert(nr[q] == k);
                        } else {
                            assert(nr[q + 1] == k);
                        }
                    } else {
                        assert(nr[p as int] == k);
                    }
                }
            }
            assert(nr.no_duplicates()) by {
                assert forall|a: int, b: int| 0 <= a < nr.len() && 0 <= b < nr.len() && a != b implies nr[a] != nr[b] by {
                    let fa = if a < p { a } else { a - 1 };
                    let fb = if b < p { b } else { b - 1 };
                    if a != p && b != p {
                        assert(nr[a] == old_r[fa] && nr[b] == old_r[fb]);
                    } else if a == p {
                        assert(nr[b] == old_r[fb]);
                        assert(old_r.contains(old_r[fb]));
                    } else {
                        assert(nr[a] == old_r[fa]);
                        assert(old_r.contains(old_r[fa]));
                    }
                }
            }
        }
        i += 1;
    }
    proof {
        assert(names_view(names@).subrange(0, names@.len() as int) =~= names_view(names@));
    }
    r
}

} // verus!
