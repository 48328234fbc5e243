//! Ordering of strings by their characters, and sorting by that order, so that
//! generated files list their entries in a fixed order.

use vstd::prelude::*;
use vstd::relations::{sorted_by, total_ordering};
use crate::text::str_to_chars;

verus! {

broadcast use vstd::seq_lib::group_to_multiset_ensures;

/// `a` comes before `b` or equals it, comparing characters by code point
/// (the order of `str`, which is that of the UTF-8 bytes).
pub open spec fn chars_le(a: Seq<char>, b: Seq<char>) -> bool
    decreases a.len(),
{
    if a.len() == 0 {
        true
    } else if b.len() == 0 {
        false
    } else if (a[0] as int) < (b[0] as int) {
        true
    } else if (a[0] as int) > (b[0] as int) {
        false
    } else {
        chars_le(a.drop_first(), b.drop_first())
    }
}

/// Pairs ordered by their first component, then by their second.
pub open spec fn pair_le(a: (Seq<char>, Seq<char>), b: (Seq<char>, Seq<char>)) -> bool {
    (chars_le(a.0, b.0) && a.0 != b.0) || (a.0 == b.0 && chars_le(a.1, b.1))
}

/// `chars_le` is total, antisymmetric and reflexive.
pub proof fn lemma_chars_le_total(a: Seq<char>, b: Seq<char>)
    ensures
        chars_le(a, b) || chars_le(b, a),
        chars_le(a, b) && chars_le(b, a) ==> a == b,
        chars_le(a, a),
    decreases a.len(),
{
    if a.len() > 0 && b.len() > 0 && a[0] == b[0] {
        lemma_chars_le_total(a.drop_first(), b.drop_first());
        if chars_le(a, b) && chars_le(b, a) {
            assert(a =~= seq![a[0]] + a.drop_first());
            assert(b =~= seq![b[0]] + b.drop_first());
        }
    }
    if a.len() > 0 {
        lemma_chars_le_total(a.drop_first(), a.drop_first());
    }
}

/// `chars_le` is transitive.
pub proof fn lemma_chars_le_trans(a: Seq<char>, b: Seq<char>, c: Seq<char>)
    requires
        chars_le(a, b),
        chars_le(b, c),
    ensures
        chars_le(a, c),
    decreases a.len(),
{
    if a.len() > 0 && b.len() > 0 && c.len() > 0 {
        if a[0] == b[0] && b[0] == c[0] {
            lemma_chars_le_trans(a.drop_first(), b.drop_first(), c.drop_first());
        }
    }
}

/// `chars_le` is a total order.
pub proof fn lemma_chars_le_total_ordering()
    ensures
        total_ordering(|a: Seq<char>, b: Seq<char>| chars_le(a, b)),
{
    assert forall|a: Seq<char>, b: Seq<char>, c: Seq<char>| #[trigger] chars_le(a, b) && #[trigger] chars_le(b, c) implies chars_le(a, c) by {
        lemma_chars_le_trans(a, b, c);
    }
    assert forall|a: Seq<char>, b: Seq<char>| #[trigger] chars_le(a, b) || chars_le(b, a) by {
        lemma_chars_le_total(a, b);
    }
    assert forall|a: Seq<char>, b: Seq<char>| #[trigger] chars_le(a, b) && chars_le(b, a) implies a == b by {
        lemma_chars_le_total(a, b);
    }
    assert forall|a: Seq<char>| #[trigger] chars_le(a, a) by {
        lemma_chars_le_total(a, a);
    }
}

/// `pair_le` is a total order.
pub proof fn lemma_pair_le_total_ordering()
    ensures
        total_ordering(|a: (Seq<char>, Seq<char>), b: (Seq<char>, Seq<char>)| pair_le(a, b)),
{
    lemma_chars_le_total_ordering();
    assert forall|a: (Seq<char>, Seq<char>), b: (Seq<char>, Seq<char>), c: (Seq<char>, Seq<char>)| #[trigger] pair_le(a, b) && #[trigger] pair_le(b, c) implies pair_le(a, c) by {
        lemma_chars_le_total(a.0, b.0);
        lemma_chars_le_total(b.0, c.0);
        lemma_chars_le_total(a.0, c.0);
        if a.0 != b.0 && b.0 != c.0 {
            lemma_chars_le_trans(a.0, b.0, c.0);
        }
        if a.0 == b.0 && b.0 == c.0 {
            lemma_chars_le_trans(a.1, b.1, c.1);
        }
    }
    assert forall|a: (Seq<char>, Seq<char>), b: (Seq<char>, Seq<char>)| #[trigger] pair_le(a, b) || pair_le(b, a) by {
        lemma_chars_le_total(a.0, b.0);
        lemma_chars_le_total(a.1, b.1);
    }
    assert forall|a: (Seq<char>, Seq<char>), b: (Seq<char>, Seq<char>)| #[trigger] pair_le(a, b) && pair_le(b, a) implies a == b by {
        lemma_chars_le_total(a.0, b.0);
        lemma_chars_le_total(a.1, b.1);
    }
    assert forall|a: (Seq<char>, Seq<char>)| #[trigger] pair_le(a, a) by {
        lemma_chars_le_total(a.1, a.1);
    }
}

/// Whether `a` comes before `b` or equals it.
pub fn chars_le_exec(a: &Vec<char>, b: &Vec<char>) -> (r: bool)
    ensures
        r == chars_le(a@, b@),
{
    let mut i: usize = 0;
    assert(a@.skip(0) =~= a@);
    assert(b@.skip(0) =~= b@);
    while i < a.len() && i < b.len() && a[i] == b[i]
        invariant
            i <= a.len(),
            i <= b.len(),
            chars_le(a@, b@) == chars_le(a@.skip(i as int), b@.skip(i as int)),
        decreases a.len() - i,
    {
        assert(a@.skip(i as int).drop_first() =~= a@.skip(i + 1));
        assert(b@.skip(i as int).drop_first() =~= b@.skip(i + 1));
        i = i + 1;
    }
    if i == a.len() {
        return true;
    }
    if i == b.len() {
        return false;
    }
    assert(a@.skip(i as int)[0] == a@[i as int]);
    assert(b@.skip(i as int)[0] == b@[i as int]);
    a[i] < b[i]
}

/// Whether string `a` comes before string `b` or equals it.
pub fn str_le(a: &str, b: &str) -> (r: bool)
    ensures
        r == chars_le(a@, b@),
{
    let ac = str_to_chars(a);
    let bc = str_to_chars(b);
    chars_le_exec(&ac, &bc)
}

/// The strings in ascending order.
pub fn sort_strings(v: Vec<String>) -> (r: Vec<String>)
    ensures
        r@.map_values(|s: String| s@).to_multiset() == v@.map_values(|s: String| s@).to_multiset(),
        sorted_by(r@.map_values(|s: String| s@), |a: Seq<char>, b: Seq<char>| chars_le(a, b)),
{
    proof {
        lemma_chars_le_total_ordering();
    }
    let ghost leq = |a: Seq<char>, b: Seq<char>| chars_le(a, b);
    let ghost orig = v@.map_values(|s: String| s@);
    let mut rest = v;
    let mut out: Vec<String> = Vec::new();
    while rest.len() > 0
        invariant
            total_ordering(leq),
            leq == (|a: Seq<char>, b: Seq<char>| chars_le(a, b)),
            out@.map_values(|s: String| s@).to_multiset().add(rest@.map_values(|s: String| s@).to_multiset()) == orig.to_multiset(),
            sorted_by(out@.map_values(|s: String| s@), leq),
            forall|i: int, j: int| 0 <= i < out.len() && 0 <= j < rest.len() ==> leq(#[trigger] out@[i]@, #[trigger] rest@[j]@),
        decreases rest.len(),
    {
        let mut m: usize = 0;
        let mut j: usize = 1;
        while j < rest.len()
            invariant
                total_ordering(leq),
                leq == (|a: Seq<char>, b: Seq<char>| chars_le(a, b)),
                0 <= m < j <= rest.len(),
                forall|k: int| 0 <= k < j ==> leq(rest@[m as int]@, #[trigger] rest@[k]@),
            decreases rest.len() - j,
        {
            let ghost old_m = m;
            if !str_le(rest[m].as_str(), rest[j].as_str()) {
                proof {
                    lemma_chars_le_total(rest@[m as int]@, rest@[j as int]@);
                    assert forall|k: int| 0 <= k < j + 1 implies leq(rest@[j as int]@, #[trigger] rest@[k]@) by {
                        if k < j {
                            lemma_chars_le_trans(rest@[j as int]@, rest@[old_m as int]@, rest@[k]@);
                        } else {
                            lemma_chars_le_total(rest@[j as int]@, rest@[j as int]@);
                        }
                    }
                }
                m = j;
            }
            j = j + 1;
        }
        let ghost old_rest = rest@.map_values(|s: String| s@);
        let ghost old_out = out@.map_values(|s: String| s@);
        let x = rest.remove(m);
        assert(rest@.map_values(|s: String| s@) =~= old_rest.remove(m as int));
        out.push(x);
        assert(out@.map_values(|s: String| s@) =~= old_out.push(x@));
        proof {
            assert(old_rest[m as int] == x@);
            assert(out@.map_values(|s: String| s@).to_multiset() =~= old_out.to_multiset().insert(x@));
            assert(rest@.map_values(|s: String| s@).to_multiset() =~= old_rest.to_multiset().remove(x@));
            assert(old_rest.to_multiset().contains(x@));
        }
    }
    assert(rest@.map_values(|s: String| s@) =~= Seq::<Seq<char>>::empty());
    out
}

/// The pairs in ascending order of their first component, then their second.
pub fn sort_string_pairs(v: Vec<(String, String)>) -> (r: Vec<(String, String)>)
    ensures
        r@.map_values(|p: (String, String)| (p.0@, p.1@)).to_multiset() == v@.map_values(|p: (String, String)| (p.0@, p.1@)).to_multiset(),
        sorted_by(r@.map_values(|p: (String, String)| (p.0@, p.1@)), |a: (Seq<char>, Seq<char>), b: (Seq<char>, Seq<char>)| pair_le(a, b)),
{
    proof {
        lemma_pair_le_total_ordering();
    }
    let ghost leq = |a: (Seq<char>, Seq<char>), b: (Seq<char>, Seq<char>)| pair_le(a, b);
    let ghost orig = v@.map_values(|p: (String, String)| (p.0@, p.1@));
    let mut rest = v;
    let mut out: Vec<(String, String)> = Vec::new();
    while rest.len() > 0
        invariant
            total_ordering(leq),
            leq == (|a: (Seq<char>, Seq<char>), b: (Seq<char>, Seq<char>)| pair_le(a, b)),
            out@.map_values(|p: (String, String)| (p.0@, p.1@)).to_multiset().add(rest@.map_values(|p: (String, String)| (p.0@, p.1@)).to_multiset()) == orig.to_multiset(),
            sorted_by(out@.map_values(|p: (String, String)| (p.0@, p.1@)), leq),
            forall|i: int, j: int| 0 <= i < out.len() && 0 <= j < rest.len() ==> leq(((#[trigger] out@[i]).0@, out@[i].1@), ((#[trigger] rest@[j]).0@, rest@[j].1@)),
        decreases rest.len(),
    {
        let mut m: usize = 0;
        let mut j: usize = 1;
        while j < rest.len()
            invariant
                total_ordering(leq),
                leq == (|a: (Seq<char>, Seq<char>), b: (Seq<char>, Seq<char>)| pair_le(a, b)),
                0 <= m < j <= rest.len(),
                forall|k: int| 0 <= k < j ==> leq((rest@[m as int].0@, rest@[m as int].1@), ((#[trigger] rest@[k]).0@, rest@[k].1@)),
            decreases rest.len() - j,
        {
            let k0 = str_le(rest[m].0.as_str(), rest[j].0.as_str());
            let k1 = str_le(rest[j].0.as_str(), rest[m].0.as_str());
            let v0 = str_le(rest[m].1.as_str(), rest[j].1.as_str());
            let m_le_j = (k0 && !k1) || (k0 && k1 && v0);
            proof {
                lemma_chars_le_total(rest@[m as int].0@, rest@[j as int].0@);
                lemma_chars_le_total(rest@[m as int].1@, rest@[j as int].1@);
                assert(m_le_j == pair_le((rest@[m as int].0@, rest@[m as int].1@), (rest@[j as int].0@, rest@[j as int].1@)));
            }
            let ghost old_m = m;
            if !m_le_j {
                proof {
                    let pm = (rest@[old_m as int].0@, rest@[old_m as int].1@);
                    let pj = (rest@[j as int].0@, rest@[j as int].1@);
                    assert(pair_le(pj, pm));
                    assert forall|k: int| 0 <= k < j + 1 implies leq(pj, ((#[trigger] rest@[k]).0@, rest@[k].1@)) by {
                        let pk = (rest@[k].0@, rest@[k].1@);
                        if k < j {
                            assert(leq(pm, pk));
                            assert(leq(pj, pm));
                        } else {
                            assert(pk == pj);
                        }
                    }
                }
                m = j;
            }
            j = j + 1;
        }
        let ghost old_rest = rest@.map_values(|p: (String, String)| (p.0@, p.1@));
        let ghost old_out = out@.map_values(|p: (String, String)| (p.0@, p.1@));
        let x = rest.remove(m);
        assert(rest@.map_values(|p: (String, String)| (p.0@, p.1@)) =~= old_rest.remove(m as int));
        out.push(x);
        assert(out@.map_values(|p: (String, String)| (p.0@, p.1@)) =~= old_out.push((x.0@, x.1@)));
        proof {
            assert(old_rest[m as int] == (x.0@, x.1@));
            assert(old_rest.to_multiset().contains((x.0@, x.1@)));
        }
    }
    assert(rest@.map_values(|p: (String, String)| (p.0@, p.1@)) =~= Seq::<(Seq<char>, Seq<char>)>::empty());
    out
}


/// A copy of the strings.
pub fn copy_strings(v: &Vec<String>) -> (r: Vec<String>)
    ensures
        r@.map_values(|s: String| s@) == v@.map_values(|s: String| s@),
{
    let mut r: Vec<String> = Vec::new();
    let mut i: usize = 0;
    while i < v.len()
        invariant
            i <= v.len(),
            r@.map_values(|s: String| s@) == v@.map_values(|s: String| s@).take(i as int),
        decreases v.len() - i,
    {
        let ghost old_r = r@.map_values(|s: String| s@);
        let c = v[i].clone();
        assert(c@ == v@[i as int]@);
        r.push(c);
        assert(r@.map_values(|s: String| s@) =~= old_r.push(v@[i as int]@));
        assert(v@.map_values(|s: String| s@).take(i + 1) =~= v@.map_values(|s: String| s@).take(i as int).push(v@[i as int]@));
        i = i + 1;
    }
    assert(v@.map_values(|s: String| s@).take(i as int) =~= v@.map_values(|s: String| s@));
    r
}

/// A copy of the pairs of strings.
pub fn copy_string_pairs(v: &Vec<(String, String)>) -> (r: Vec<(String, String)>)
    ensures
        r@.map_values(|p: (String, String)| (p.0@, p.1@)) == v@.map_values(|p: (String, String)| (p.0@, p.1@)),
{
    let mut r: Vec<(String, String)> = Vec::new();
    let mut i: usize = 0;
    while i < v.len()
        invariant
            i <= v.len(),
            r@.map_values(|p: (String, String)| (p.0@, p.1@)) == v@.map_values(|p: (String, String)| (p.0@, p.1@)).take(i as int),
        decreases v.len() - i,
    {
        let ghost old_r = r@.map_values(|p: (String, String)| (p.0@, p.1@));
        let a = v[i].0.clone();
        let b = v[i].1.clone();
        assert(a@ == v@[i as int].0@);
        assert(b@ == v@[i as int].1@);
        r.push((a, b));
        assert(r@.map_values(|p: (String, String)| (p.0@, p.1@)) =~= old_r.push((v@[i as int].0@, v@[i as int].1@)));
        assert(v@.map_values(|p: (String, String)| (p.0@, p.1@)).take(i + 1) =~= v@.map_values(|p: (String, String)| (p.0@, p.1@)).take(i as int).push((v@[i as int].0@, v@[i as int].1@)));
        i = i + 1;
    }
    assert(v@.map_values(|p: (String, String)| (p.0@, p.1@)).take(i as int) =~= v@.map_values(|p: (String, String)| (p.0@, p.1@)));
    r
}

} // verus!
