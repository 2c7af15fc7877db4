use vstd::prelude::*;
use vstd::multiset::Multiset;

use crate::strings::{lemma_lex_le_refl, lemma_lex_le_total, lemma_lex_le_trans, lex_le, str_le};
use crate::tracks::{Album, Track};

verus! {

// ---------------------------------------------------------------------------
// The orders the store lists by. Every listing promises a sorted result that
// holds exactly the same rows, which is all the underlying table promises
// when two rows share a key.
// ---------------------------------------------------------------------------

pub open spec fn strings_sorted(s: Seq<String>) -> bool {
    forall|i: int, j: int| 0 <= i < j < s.len() ==> lex_le(s[i]@, s[j]@)
}

pub open spec fn tracks_sorted_by_name(s: Seq<Track>) -> bool {
    forall|i: int, j: int| 0 <= i < j < s.len() ==> lex_le(s[i].name@, s[j].name@)
}

pub open spec fn albums_sorted_by_name(s: Seq<Album>) -> bool {
    forall|i: int, j: int| 0 <= i < j < s.len() ==> lex_le(s[i].name@, s[j].name@)
}

/// The value a track's rank field orders by; a missing rank sorts last.
pub open spec fn rank_val(t: Track) -> int {
    match t.rank {
        Some(r) => r as int,
        None => -1,
    }
}

pub open spec fn tracks_sorted_by_rank_desc(s: Seq<Track>) -> bool {
    forall|i: int, j: int| 0 <= i < j < s.len() ==> rank_val(s[i]) >= rank_val(s[j])
}

// ---------------------------------------------------------------------------
// Selection sorts. Each takes the rows and returns the same rows, ordered.
// ---------------------------------------------------------------------------

/// Sorts strings into listing order.
pub fn sort_strings(v: Vec<String>) -> (r: Vec<String>)
    ensures
        r@.to_multiset() == v@.to_multiset(),
        strings_sorted(r@),
{
    broadcast use vstd::seq_lib::group_to_multiset_ensures;

    let mut src = v;
    let mut out: Vec<String> = Vec::new();
    while src.len() > 0
        invariant
            out@.to_multiset().add(src@.to_multiset()) == v@.to_multiset(),
            strings_sorted(out@),
            forall|i: int, j: int|
                0 <= i < out@.len() && 0 <= j < src@.len() ==> lex_le(out@[i]@, src@[j]@),
        decreases src.len(),
    {
        let mut m: usize = 0;
        let mut k: usize = 1;
        proof {
            lemma_lex_le_refl(src@[0]@);
        }
        while k < src.len()
            invariant
                src@.len() > 0,
                m < k,
                k <= src@.len(),
                forall|j: int| 0 <= j < k ==> lex_le(src@[m as int]@, src@[j]@),
            decreases src.len() - k,
        {
            if !str_le(src[m].as_str(), src[k].as_str()) {
                proof {
                    lemma_lex_le_total(src@[m as int]@, src@[k as int]@);
                    assert forall|j: int| 0 <= j < k + 1 implies lex_le(
                        src@[k as int]@,
                        src@[j]@,
                    ) by {
                        if j < k {
                            lemma_lex_le_trans(src@[k as int]@, src@[m as int]@, src@[j]@);
                        } else {
                            lemma_lex_le_refl(src@[k as int]@);
                        }
                    }
                }
                m = k;
            }
            k = k + 1;
        }
        let ghost old_src = src@;
        let ghost old_out = out@;
        let x = src.remove(m);
        out.push(x);
        proof {
            broadcast use vstd::multiset::group_multiset_axioms;
            broadcast use vstd::seq_lib::group_to_multiset_ensures;

            assert(old_src.contains(x));
            vstd::seq_lib::to_multiset_build::<String>(old_out, x);
            vstd::seq_lib::to_multiset_remove::<String>(old_src, m as int);
            assert(out@.to_multiset() == old_out.to_multiset().insert(x));
            assert(src@.to_multiset() == old_src.to_multiset().remove(x));
            assert(old_src.to_multiset().count(x) > 0);
            assert(old_out.to_multiset().add(old_src.to_multiset()) == v@.to_multiset());
            assert(out@.to_multiset().add(src@.to_multiset()) =~= v@.to_multiset());
            assert forall|i: int, j: int|
                0 <= i < out@.len() && 0 <= j < src@.len() implies lex_le(
                out@[i]@,
                src@[j]@,
            ) by {
                assert(src@[j] == if j < m {
                    old_src[j]
                } else {
                    old_src[j + 1]
                });
                if i < old_out.len() {
                    assert(lex_le(out@[i]@, old_src[m as int]@));
                    lemma_lex_le_trans(out@[i]@, old_src[m as int]@, src@[j]@);
                }
            }
        }
    }
    proof {
        assert(src@.to_multiset() =~= Multiset::<String>::empty());
        assert(out@.to_multiset() =~= v@.to_multiset());
    }
    out
}

/// Sorts tracks by name into listing order.
pub fn sort_tracks_by_name(v: Vec<Track>) -> (r: Vec<Track>)
    ensures
        r@.to_multiset() == v@.to_multiset(),
        tracks_sorted_by_name(r@),
{
    broadcast use vstd::seq_lib::group_to_multiset_ensures;

    let mut src = v;
    let mut out: Vec<Track> = Vec::new();
    while src.len() > 0
        invariant
            out@.to_multiset().add(src@.to_multiset()) == v@.to_multiset(),
            tracks_sorted_by_name(out@),
            forall|i: int, j: int|
                0 <= i < out@.len() && 0 <= j < src@.len() ==> lex_le(out@[i].name@, src@[j].name@),
        decreases src.len(),
    {
        let mut m: usize = 0;
        let mut k: usize = 1;
        proof {
            lemma_lex_le_refl(src@[0].name@);
        }
        while k < src.len()
            invariant
                src@.len() > 0,
                m < k,
                k <= src@.len(),
                forall|j: int| 0 <= j < k ==> lex_le(src@[m as int].name@, src@[j].name@),
            decreases src.len() - k,
        {
            if !str_le(src[m].name.as_str(), src[k].name.as_str()) {
                proof {
                    lemma_lex_le_total(src@[m as int].name@, src@[k as int].name@);
                    assert forall|j: int| 0 <= j < k + 1 implies lex_le(
                        src@[k as int].name@,
                        src@[j].name@,
                    ) by {
                        if j < k {
                            lemma_lex_le_trans(
                                src@[k as int].name@,
                                src@[m as int].name@,
                                src@[j].name@,
                            );
                        } else {
                            lemma_lex_le_refl(src@[k as int].name@);
                        }
                    }
                }
                m = k;
            }
            k = k + 1;
        }
        let ghost old_src = src@;
        let ghost old_out = out@;
        let x = src.remove(m);
        out.push(x);
        proof {
            broadcast use vstd::multiset::group_multiset_axioms;
            broadcast use vstd::seq_lib::group_to_multiset_ensures;

            assert(old_src.contains(x));
            vstd::seq_lib::to_multiset_build::<Track>(old_out, x);
            vstd::seq_lib::to_multiset_remove::<Track>(old_src, m as int);
            assert(old_src.to_multiset().count(x) > 0);
            assert(old_out.to_multiset().add(old_src.to_multiset()) == v@.to_multiset());
            assert(out@.to_multiset().add(src@.to_multiset()) =~= v@.to_multiset());
            assert forall|i: int, j: int|
                0 <= i < out@.len() && 0 <= j < src@.len() implies lex_le(
                out@[i].name@,
                src@[j].name@,
            ) by {
                assert(src@[j] == if j < m {
                    old_src[j]
                } else {
                    old_src[j + 1]
                });
                if i < old_out.len() {
                    assert(lex_le(out@[i].name@, old_src[m as int].name@));
                    lemma_lex_le_trans(out@[i].name@, old_src[m as int].name@, src@[j].name@);
                }
            }
        }
    }
    proof {
        assert(src@.to_multiset() =~= Multiset::<Track>::empty());
        assert(out@.to_multiset() =~= v@.to_multiset());
    }
    out
}

/// Sorts album rows by name into listing order.
pub fn sort_albums_by_name(v: Vec<Album>) -> (r: Vec<Album>)
    ensures
        r@.to_multiset() == v@.to_multiset(),
        albums_sorted_by_name(r@),
{
    broadcast use vstd::seq_lib::group_to_multiset_ensures;

    let mut src = v;
    let mut out: Vec<Album> = Vec::new();
    while src.len() > 0
        invariant
            out@.to_multiset().add(src@.to_multiset()) == v@.to_multiset(),
            albums_sorted_by_name(out@),
            forall|i: int, j: int|
                0 <= i < out@.len() && 0 <= j < src@.len() ==> lex_le(out@[i].name@, src@[j].name@),
        decreases src.len(),
    {
        let mut m: usize = 0;
        let mut k: usize = 1;
        proof {
            lemma_lex_le_refl(src@[0].name@);
        }
        while k < src.len()
            invariant
                src@.len() > 0,
                m < k,
                k <= src@.len(),
                forall|j: int| 0 <= j < k ==> lex_le(src@[m as int].name@, src@[j].name@),
            decreases src.len() - k,
        {
            if !str_le(src[m].name.as_str(), src[k].name.as_str()) {
                proof {
                    lemma_lex_le_total(src@[m as int].name@, src@[k as int].name@);
                    assert forall|j: int| 0 <= j < k + 1 implies lex_le(
                        src@[k as int].name@,
                        src@[j].name@,
                    ) by {
                        if j < k {
                            lemma_lex_le_trans(
                                src@[k as int].name@,
                                src@[m as int].name@,
                                src@[j].name@,
                            );
                        } else {
                            lemma_lex_le_refl(src@[k as int].name@);
                        }
                    }
                }
                m = k;
            }
            k = k + 1;
        }
        let ghost old_src = src@;
        let ghost old_out = out@;
        let x = src.remove(m);
        out.push(x);
        proof {
            broadcast use vstd::multiset::group_multiset_axioms;
            broadcast use vstd::seq_lib::group_to_multiset_ensures;

            assert(old_src.contains(x));
            vstd::seq_lib::to_multiset_build::<Album>(old_out, x);
            vstd::seq_lib::to_multiset_remove::<Album>(old_src, m as int);
            assert(old_src.to_multiset().count(x) > 0);
            assert(old_out.to_multiset().add(old_src.to_multiset()) == v@.to_multiset());
            assert(out@.to_multiset().add(src@.to_multiset()) =~= v@.to_multiset());
            assert forall|i: int, j: int|
                0 <= i < out@.len() && 0 <= j < src@.len() implies lex_le(
                out@[i].name@,
                src@[j].name@,
            ) by {
                assert(src@[j] == if j < m {
                    old_src[j]
                } else {
                    old_src[j + 1]
                });
                if i < old_out.len() {
                    assert(lex_le(out@[i].name@, old_src[m as int].name@));
                    lemma_lex_le_trans(out@[i].name@, old_src[m as int].name@, src@[j].name@);
                }
            }
        }
    }
    proof {
        assert(src@.to_multiset() =~= Multiset::<Album>::empty());
        assert(out@.to_multiset() =~= v@.to_multiset());
    }
    out
}

/// Whether some string in `s` reads `a`.
pub open spec fn has_view(s: Seq<String>, a: Seq<char>) -> bool {
    exists|k: int| 0 <= k < s.len() && s[k]@ == a
}

/// Reordering rows keeps exactly the texts: a view occurs in one order if
/// and only if it occurs in the other, and pairwise-distinct views stay
/// pairwise-distinct.
pub proof fn lemma_string_multiset_views(pre: Seq<String>, post: Seq<String>)
    requires
        pre.to_multiset() == post.to_multiset(),
    ensures
        forall|a: Seq<char>| #[trigger] has_view(post, a) <==> has_view(pre, a),
        (forall|i: int, j: int| 0 <= i < j < pre.len() ==> pre[i]@ != pre[j]@) ==> (forall|
            i: int,
            j: int,
        |
            0 <= i < j < post.len() ==> post[i]@ != post[j]@),
{
    broadcast use vstd::seq_lib::group_to_multiset_ensures;
    broadcast use vstd::multiset::group_multiset_axioms;

    assert forall|a: Seq<char>| #[trigger] has_view(post, a) <==> has_view(pre, a) by {
        if exists|k: int| 0 <= k < post.len() && post[k]@ == a {
            let k = choose|k: int| 0 <= k < post.len() && post[k]@ == a;
            let v = post[k];
            assert(post.contains(v));
            assert(post.to_multiset().count(v) > 0);
            assert(pre.to_multiset().count(v) > 0);
            assert(pre.contains(v));
            let k2 = choose|k2: int| 0 <= k2 < pre.len() && pre[k2] == v;
            assert(pre[k2]@ == a);
        }
        if exists|k: int| 0 <= k < pre.len() && pre[k]@ == a {
            let k = choose|k: int| 0 <= k < pre.len() && pre[k]@ == a;
            let v = pre[k];
            assert(pre.contains(v));
            assert(pre.to_multiset().count(v) > 0);
            assert(post.to_multiset().count(v) > 0);
            assert(post.contains(v));
            let k2 = choose|k2: int| 0 <= k2 < post.len() && post[k2] == v;
            assert(post[k2]@ == a);
        }
    }
    if forall|i: int, j: int| 0 <= i < j < pre.len() ==> pre[i]@ != pre[j]@ {
        assert(pre.no_duplicates()) by {
            assert forall|i: int, j: int|
                0 <= i < pre.len() && 0 <= j < pre.len() && i != j implies pre[i] != pre[j] by {
                if i < j {
                    assert(pre[i]@ != pre[j]@);
                } else {
                    assert(pre[j]@ != pre[i]@);
                }
            }
        }
        pre.lemma_multiset_has_no_duplicates();
        assert forall|i: int, j: int| 0 <= i < j < post.len() implies post[i]@ != post[j]@ by {
            if post[i]@ == post[j]@ {
                let v = post[i];
                if post[i] == post[j] {
                    vstd::seq_lib::to_multiset_remove::<String>(post, j);
                    assert(post.remove(j)[i] == post[i]);
                    assert(post.remove(j).contains(v));
                    assert(post.remove(j).to_multiset().count(v) > 0);
                    assert(post.to_multiset().count(v) >= 2);
                    assert(pre.contains(v));
                    assert(pre.to_multiset().count(v) == 1);
                    assert(false);
                } else {
                    assert(post.contains(post[i]));
                    assert(post.to_multiset().count(post[i]) > 0);
                    assert(pre.contains(post[i]));
                    assert(post.contains(post[j]));
                    assert(post.to_multiset().count(post[j]) > 0);
                    assert(pre.contains(post[j]));
                    let k1 = choose|k: int| 0 <= k < pre.len() && pre[k] == post[i];
                    let k2 = choose|k: int| 0 <= k < pre.len() && pre[k] == post[j];
                    assert(k1 != k2);
                    if k1 < k2 {
                        assert(pre[k1]@ != pre[k2]@);
                    } else {
                        assert(pre[k2]@ != pre[k1]@);
                    }
                    assert(false);
                }
            }
        }
    }
}

fn rank_of(t: &Track) -> (r: i64)
    requires
        rank_val(*t) <= i64::MAX,
    ensures
        r as int == rank_val(*t),
{
    match t.rank {
        Some(v) => v as i64,
        None => -1,
    }
}

/// Whether every rank field of the tracks fits the signed range the ranking
/// queries compare in.
pub open spec fn ranks_bounded(s: Seq<Track>) -> bool {
    forall|i: int| 0 <= i < s.len() ==> rank_val(s[i]) <= i64::MAX
}

/// Sorts tracks by descending rank.
pub fn sort_tracks_by_rank_desc(v: Vec<Track>) -> (r: Vec<Track>)
    requires
        ranks_bounded(v@),
    ensures
        r@.to_multiset() == v@.to_multiset(),
        tracks_sorted_by_rank_desc(r@),
{
    broadcast use vstd::seq_lib::group_to_multiset_ensures;

    let mut src = v;
    let mut out: Vec<Track> = Vec::new();
    while src.len() > 0
        invariant
            out@.to_multiset().add(src@.to_multiset()) == v@.to_multiset(),
            ranks_bounded(src@),
            tracks_sorted_by_rank_desc(out@),
            forall|i: int, j: int|
                0 <= i < out@.len() && 0 <= j < src@.len() ==> rank_val(out@[i]) >= rank_val(
                    src@[j],
                ),
        decreases src.len(),
    {
        let mut m: usize = 0;
        let mut k: usize = 1;
        while k < src.len()
            invariant
                src@.len() > 0,
                m < k,
                k <= src@.len(),
                ranks_bounded(src@),
                forall|j: int| 0 <= j < k ==> rank_val(src@[m as int]) >= rank_val(src@[j]),
            decreases src.len() - k,
        {
            if rank_of(&src[k]) > rank_of(&src[m]) {
                m = k;
            }
            k = k + 1;
        }
        let ghost old_src = src@;
        let ghost old_out = out@;
        let x = src.remove(m);
        out.push(x);
        proof {
            broadcast use vstd::multiset::group_multiset_axioms;
            broadcast use vstd::seq_lib::group_to_multiset_ensures;

            assert(old_src.contains(x));
            vstd::seq_lib::to_multiset_build::<Track>(old_out, x);
            vstd::seq_lib::to_multiset_remove::<Track>(old_src, m as int);
            assert(old_src.to_multiset().count(x) > 0);
            assert(old_out.to_multiset().add(old_src.to_multiset()) == v@.to_multiset());
            assert(out@.to_multiset().add(src@.to_multiset()) =~= v@.to_multiset());
            assert forall|i: int, j: int|
                0 <= i < out@.len() && 0 <= j < src@.len() implies rank_val(out@[i]) >= rank_val(
                src@[j],
            ) by {
                assert(src@[j] == if j < m {
                    old_src[j]
                } else {
                    old_src[j + 1]
                });
            }
            assert forall|j: int| 0 <= j < src@.len() implies rank_val(src@[j]) <= i64::MAX by {
                assert(src@[j] == if j < m {
                    old_src[j]
                } else {
                    old_src[j + 1]
                });
            }
        }
    }
    proof {
        assert(src@.to_multiset() =~= Multiset::<Track>::empty());
        assert(out@.to_multiset() =~= v@.to_multiset());
    }
    out
}

} // verus!
