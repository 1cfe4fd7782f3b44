//! Lexicographic ordering of unit names, and sorting of name lists: the
//! orphan report is sorted so that identical inputs give identical output.

use vstd::prelude::*;
use vstd::relations::total_ordering;
use vstd::seq_lib::lemma_sorted_unique;

verus! {

/// `a` comes at or before `b` in lexicographic order by code point.
pub open spec fn lex_le(a: Seq<char>, b: Seq<char>) -> bool
    decreases a.len(),
{
    if a.len() == 0 {
        true
    } else if b.len() == 0 {
        false
    } else if a[0] < b[0] {
        true
    } else if b[0] < a[0] {
        false
    } else {
        lex_le(a.drop_first(), b.drop_first())
    }
}

/// The characters of each string of `names`, in order.
pub open spec fn name_view_seq(names: Seq<String>) -> Seq<Seq<char>> {
    names.map_values(|s: String| s@)
}

/// The name list is sorted lexicographically.
pub open spec fn sorted_names(s: Seq<Seq<char>>) -> bool {
    forall|i: int, j: int| 0 <= i < j < s.len() ==> lex_le(#[trigger] s[i], #[trigger] s[j])
}

/// Any two names are ordered one way or the other.
pub proof fn lemma_lex_le_total(a: Seq<char>, b: Seq<char>)
    ensures
        lex_le(a, b) || lex_le(b, a),
    decreases a.len(),
{
    if a.len() > 0 && b.len() > 0 && !(a[0] < b[0]) && !(b[0] < a[0]) {
        lemma_lex_le_total(a.drop_first(), b.drop_first());
    }
}

/// Names ordered both ways are the same name.
pub proof fn lemma_lex_le_antisymmetric(a: Seq<char>, b: Seq<char>)
    requires
        lex_le(a, b),
        lex_le(b, a),
    ensures
        a == b,
    decreases a.len(),
{
    if a.len() == 0 {
        assert(b.len() == 0);
        assert(a =~= b);
    } else {
        assert(b.len() > 0);
        assert(!(a[0] < b[0])) by {
            if a[0] < b[0] {
                assert(!lex_le(b, a));
            }
        }
        assert(!(b[0] < a[0])) by {
            if b[0] < a[0] {
                assert(!lex_le(a, b));
            }
        }
        assert(a[0] == b[0]);
        lemma_lex_le_antisymmetric(a.drop_first(), b.drop_first());
        assert forall|i: int| 0 <= i < a.len() implies a[i] == b[i] by {
            if i > 0 {
                assert(a.drop_first()[i - 1] == b.drop_first()[i - 1]);
            }
        }
        assert(a =~= b);
    }
}

/// The order chains: a name at or before a second, itself at or before a
/// third, is at or before the third.
pub proof fn lemma_lex_le_transitive(a: Seq<char>, b: Seq<char>, c: Seq<char>)
    requires
        lex_le(a, b),
        lex_le(b, c),
    ensures
        lex_le(a, c),
    decreases a.len(),
{
    if a.len() > 0 {
        assert(b.len() > 0);
        assert(c.len() > 0);
        if a[0] == b[0] && b[0] == c[0] {
            lemma_lex_le_transitive(a.drop_first(), b.drop_first(), c.drop_first());
        }
    }
}

/// Lexicographic order is a total ordering on names.
pub proof fn lemma_lex_le_total_ordering()
    ensures
        total_ordering(|a: Seq<char>, b: Seq<char>| lex_le(a, b)),
{
    let leq = |a: Seq<char>, b: Seq<char>| lex_le(a, b);
    assert forall|a: Seq<char>| #[trigger] leq(a, a) by {
        lemma_lex_le_total(a, a);
    }
    assert forall|a: Seq<char>, b: Seq<char>| #[trigger] leq(a, b) && #[trigger] leq(b, a)
        implies a == b by {
        lemma_lex_le_antisymmetric(a, b);
    }
    assert forall|a: Seq<char>, b: Seq<char>, c: Seq<char>|
        #[trigger] leq(a, b) && #[trigger] leq(b, c) implies leq(a, c) by {
        lemma_lex_le_transitive(a, b, c);
    }
    assert forall|a: Seq<char>, b: Seq<char>| !(#[trigger] leq(a, b)) implies leq(b, a) by {
        lemma_lex_le_total(a, b);
    }
}

/// A sorted name list is determined by which names it holds: sorting is
/// deterministic, so identical inputs give identical output.
pub proof fn lemma_sorted_names_unique(a: Seq<Seq<char>>, b: Seq<Seq<char>>)
    requires
        sorted_names(a),
        sorted_names(b),
        a.to_multiset() == b.to_multiset(),
    ensures
        a == b,
{
    let leq = |x: Seq<char>, y: Seq<char>| lex_le(x, y);
    lemma_lex_le_total_ordering();
    lemma_sorted_unique(a, b, leq);
    assert(a =~= b);
}

/// Whether `a` comes at or before `b`, decided character by character.
pub fn str_le(a: &str, b: &str) -> (r: bool)
    ensures
        r == lex_le(a@, b@),
{
    let an = a.unicode_len();
    let bn = b.unicode_len();
    proof {
        assert(a@.skip(0) =~= a@);
        assert(b@.skip(0) =~= b@);
    }
    let mut i: usize = 0;
    while i < an && i < bn
        invariant
            an == a@.len(),
            bn == b@.len(),
            i <= an,
            i <= bn,
            lex_le(a@, b@) == lex_le(a@.skip(i as int), b@.skip(i as int)),
        decreases an - i,
    {
        let ca = a.get_char(i);
        let cb = b.get_char(i);
        proof {
            assert(a@.skip(i as int)[0] == a@[i as int]);
            assert(b@.skip(i as int)[0] == b@[i as int]);
        }
        if ca < cb {
            return true;
        }
        if cb < ca {
            return false;
        }
        proof {
            assert(a@.skip(i as int).drop_first() =~= a@.skip(i + 1));
            assert(b@.skip(i as int).drop_first() =~= b@.skip(i + 1));
        }
        i += 1;
    }
    if i == an {
        proof {
            assert(a@.skip(i as int).len() == 0);
        }
        true
    } else {
        proof {
            assert(b@.skip(i as int).len() == 0);
            assert(a@.skip(i as int).len() > 0);
        }
        false
    }
}

/// The position of a least name of a non-empty list.
fn min_name_index(names: &Vec<String>) -> (m: usize)
    requires
        names@.len() > 0,
    ensures
        m < names@.len(),
        forall|i: int| 0 <= i < names@.len() ==> lex_le(names@[m as int]@, (#[trigger] names@[i])@),
{
    let mut m: usize = 0;
    let mut i: usize = 1;
    proof {
        lemma_lex_le_total(names@[0]@, names@[0]@);
    }
    while i < names.len()
        invariant
            1 <= i <= names@.len(),
            m < i,
            forall|j: int| 0 <= j < i ==> lex_le(names@[m as int]@, (#[trigger] names@[j])@),
        decreases names@.len() - i,
    {
        if str_le(names[i].as_str(), names[m].as_str()) {
            let ghost m0 = m as int;
            m = i;
            assert forall|j: int| 0 <= j < i + 1 implies lex_le(
                names@[m as int]@,
                (#[trigger] names@[j])@,
            ) by {
                if j < i {
                    lemma_lex_le_transitive(names@[m as int]@, names@[m0]@, names@[j]@);
                } else {
                    lemma_lex_le_total(names@[j]@, names@[j]@);
                }
            }
        } else {
            proof {
                lemma_lex_le_total(names@[i as int]@, names@[m as int]@);
            }
        }
        i += 1;
    }
    m
}

/// Sorts a list of names lexicographically; the result holds exactly the
/// names given, each as many times as it was given.
pub fn sort_names(names: Vec<String>) -> (r: Vec<String>)
    ensures
        sorted_names(name_view_seq(r@)),
        name_view_seq(r@).to_multiset() == name_view_seq(names@).to_multiset(),
{
    broadcast use vstd::seq_lib::group_to_multiset_ensures;

    let ghost orig = name_view_seq(names@);
    let mut rest = names;
    let mut out: Vec<String> = Vec::new();
    while rest.len() > 0
        invariant
            sorted_names(name_view_seq(out@)),
            name_view_seq(out@).to_multiset().add(name_view_seq(rest@).to_multiset())
                == orig.to_multiset(),
            forall|i: int, j: int|
                0 <= i < out@.len() && 0 <= j < rest@.len() ==> lex_le(
                    (#[trigger] out@[i])@,
                    (#[trigger] rest@[j])@,
                ),
        decreases rest@.len(),
    {
        let ghost out0 = name_view_seq(out@);
        let ghost rest0 = name_view_seq(rest@);
        let m = min_name_index(&rest);
        let x = rest.remove(m);
        let ghost xv = x@;
        out.push(x);
        proof {
            broadcast use vstd::multiset::group_multiset_axioms;

            assert(name_view_seq(out@) =~= out0.push(xv));
            assert(name_view_seq(rest@) =~= rest0.remove(m as int));
            assert(rest0[m as int] == xv);
            vstd::seq_lib::to_multiset_build(out0, xv);
            vstd::seq_lib::to_multiset_remove(rest0, m as int);
            assert(out0.push(xv).to_multiset() =~= out0.to_multiset().insert(xv));
            assert(rest0.remove(m as int).to_multiset() =~= rest0.to_multiset().remove(xv));
            assert(rest0.contains(xv)) by {
                assert(rest0[m as int] == xv);
            }
            vstd::seq_lib::to_multiset_contains(rest0, xv);
            assert(rest0.to_multiset().count(xv) > 0);
            assert(name_view_seq(out@).to_multiset().add(name_view_seq(rest@).to_multiset())
                =~= orig.to_multiset());
            assert forall|i: int, j: int|
                0 <= i < j < name_view_seq(out@).len() implies lex_le(
                name_view_seq(out@)[i],
                name_view_seq(out@)[j],
            ) by {
                if j == out@.len() - 1 {
                    assert(lex_le(out0[i], rest0[m as int]));
                }
            }
            assert forall|i: int, j: int|
                0 <= i < out@.len() && 0 <= j < rest@.len() implies lex_le(
                (#[trigger] out@[i])@,
                (#[trigger] rest@[j])@,
            ) by {
                let jj: int = if j < m { j } else {
                    j + 1
                };
                assert(rest@[j]@ == rest0[jj]);
                if i < out@.len() - 1 {
                    assert(lex_le(out0[i], rest0[jj]));
                } else {
                    assert(lex_le(rest0[m as int], rest0[jj]));
                }
            }
        }
    }
    out
}

} // verus!
