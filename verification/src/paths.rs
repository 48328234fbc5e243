//! Unix paths held as strings, read as their components: the pieces between
//! `/`, empty pieces and `.` left out. A path that starts with `/` has a root.

use vstd::prelude::*;
use crate::text::{
    first_index, lemma_first_index, lemma_join_split, lemma_split_nonempty, chars_eq, extend_chars, join_chars, join_spec, seq_to_string, split_chars, split_spec,
    str_to_chars,
};

verus! {

/// The path starts at the root.
pub open spec fn has_root(p: Seq<char>) -> bool {
    p.len() > 0 && p[0] == '/'
}

/// A piece between separators that names a component.
pub open spec fn is_component(piece: Seq<char>) -> bool {
    piece.len() > 0 && piece != seq!['.']
}

/// The pieces that name components, in order.
pub open spec fn keep_components(pieces: Seq<Seq<char>>) -> Seq<Seq<char>>
    decreases pieces.len(),
{
    if pieces.len() == 0 {
        Seq::empty()
    } else if is_component(pieces.last()) {
        keep_components(pieces.drop_last()).push(pieces.last())
    } else {
        keep_components(pieces.drop_last())
    }
}

/// The components of a path (its root not among them).
pub open spec fn components(p: Seq<char>) -> Seq<Seq<char>> {
    keep_components(split_spec(p, '/'))
}

/// `base` joined with `p` (`Path::join`): `p` itself when it has a root,
/// otherwise `base`, a separator unless `base` is empty or ends with one, and `p`.
pub open spec fn path_join(base: Seq<char>, p: Seq<char>) -> Seq<char> {
    if has_root(p) {
        p
    } else if base.len() > 0 && base.last() != '/' {
        base + seq!['/'] + p
    } else {
        base + p
    }
}

/// `p` starts with `base`, component by component, and both or neither have a root.
pub open spec fn path_starts_with(p: Seq<char>, base: Seq<char>) -> bool {
    &&& has_root(p) == has_root(base)
    &&& components(base).len() <= components(p).len()
    &&& components(p).take(components(base).len() as int) == components(base)
}

/// The components of `p` after those of `base`, joined by `/`, when `p`
/// starts with `base` (`Path::strip_prefix`).
pub open spec fn path_strip_prefix(p: Seq<char>, base: Seq<char>) -> Option<Seq<char>> {
    if path_starts_with(p, base) {
        Some(join_spec(components(p).skip(components(base).len() as int), '/'))
    } else {
        None
    }
}

/// The components of `p` joined by `/`, without a root.
pub open spec fn relative_part(p: Seq<char>) -> Seq<char> {
    join_spec(components(p), '/')
}

/// Computes the components of a path.
pub fn components_exec(p: &Vec<char>) -> (r: Vec<Vec<char>>)
    ensures
        r@.map_values(|c: Vec<char>| c@) == components(p@),
{
    let pieces = split_chars(p, '/');
    let ghost ps = pieces@.map_values(|c: Vec<char>| c@);
    let mut r: Vec<Vec<char>> = Vec::new();
    let mut i: usize = 0;
    assert(ps.take(0) =~= Seq::<Seq<char>>::empty());
    while i < pieces.len()
        invariant
            i <= pieces.len(),
            ps == pieces@.map_values(|c: Vec<char>| c@),
            r@.map_values(|c: Vec<char>| c@) == keep_components(ps.take(i as int)),
        decreases pieces.len() - i,
    {
        let piece = &pieces[i];
        let is_dot = piece.len() == 1 && piece[0] == '.';
        proof {
            if piece@ == seq!['.'] {
                assert(piece@[0] == '.');
            }
            if piece.len() == 1 && piece@[0] == '.' {
                assert(piece@ =~= seq!['.']);
            }
        }
        let ghost old_r = r@.map_values(|c: Vec<char>| c@);
        assert(ps.take(i + 1).drop_last() =~= ps.take(i as int));
        assert(ps.take(i + 1).last() == piece@);
        if piece.len() > 0 && !is_dot {
            let mut c: Vec<char> = Vec::new();
            extend_chars(&mut c, piece);
            r.push(c);
            assert(r@.map_values(|c: Vec<char>| c@) =~= old_r.push(piece@));
        }
        i = i + 1;
    }
    assert(ps.take(i as int) =~= ps);
    r
}

/// Whether a path starts with `/`.
pub fn has_root_exec(p: &str) -> (r: bool)
    ensures
        r == has_root(p@),
{
    let c = str_to_chars(p);
    c.len() > 0 && c[0] == '/'
}

/// Joins `p` onto `base`.
pub fn join_path(base: &str, p: &str) -> (r: String)
    ensures
        r@ == path_join(base@, p@),
{
    let b = str_to_chars(base);
    let pc = str_to_chars(p);
    if pc.len() > 0 && pc[0] == '/' {
        return seq_to_string(&pc);
    }
    let mut out: Vec<char> = Vec::new();
    extend_chars(&mut out, &b);
    if b.len() > 0 && b[b.len() - 1] != '/' {
        out.push('/');
    }
    extend_chars(&mut out, &pc);
    seq_to_string(&out)
}

/// Whether `p` starts with `base`, component by component.
pub fn path_starts_with_exec(p: &str, base: &str) -> (r: bool)
    ensures
        r == path_starts_with(p@, base@),
{
    if has_root_exec(p) != has_root_exec(base) {
        return false;
    }
    let pchars = str_to_chars(p);
    let bchars = str_to_chars(base);
    let pc = components_exec(&pchars);
    let bc = components_exec(&bchars);
    let ghost ps = pc@.map_values(|c: Vec<char>| c@);
    let ghost bs = bc@.map_values(|c: Vec<char>| c@);
    assert(ps.len() == pc.len());
    assert(bs.len() == bc.len());
    if bc.len() > pc.len() {
        return false;
    }
    let mut i: usize = 0;
    while i < bc.len()
        invariant
            bc.len() <= pc.len(),
            i <= bc.len(),
            ps == pc@.map_values(|c: Vec<char>| c@),
            bs == bc@.map_values(|c: Vec<char>| c@),
            ps == components(p@),
            bs == components(base@),
            forall|k: int| 0 <= k < i ==> ps[k] == bs[k],
        decreases bc.len() - i,
    {
        if !chars_eq(&pc[i], &bc[i]) {
            assert(ps.take(bs.len() as int)[i as int] != bs[i as int]);
            assert(ps.take(bs.len() as int) != bs);
            return false;
        }
        i = i + 1;
    }
    assert(ps.take(bs.len() as int) =~= bs);
    true
}

/// The part of `p` after `base`, when `p` starts with `base`.
pub fn strip_path_prefix(p: &str, base: &str) -> (r: Option<String>)
    ensures
        match path_strip_prefix(p@, base@) {
            Some(rest) => r matches Some(s) && s@ == rest,
            None => r is None,
        },
{
    if !path_starts_with_exec(p, base) {
        return None;
    }
    let pchars = str_to_chars(p);
    let bchars = str_to_chars(base);
    let pc = components_exec(&pchars);
    let bc = components_exec(&bchars);
    let mut rest: Vec<Vec<char>> = Vec::new();
    let mut i: usize = bc.len();
    let ghost ps = pc@.map_values(|c: Vec<char>| c@);
    let ghost n = bc@.len();
    assert(ps.skip(n as int).take(0) =~= Seq::<Seq<char>>::empty());
    while i < pc.len()
        invariant
            n <= i <= pc.len(),
            n == bc@.len(),
            ps == pc@.map_values(|c: Vec<char>| c@),
            rest@.map_values(|c: Vec<char>| c@) == ps.skip(n as int).take(i - n),
        decreases pc.len() - i,
    {
        let mut c: Vec<char> = Vec::new();
        extend_chars(&mut c, &pc[i]);
        let ghost old_rest = rest@.map_values(|c: Vec<char>| c@);
        rest.push(c);
        assert(rest@.map_values(|c: Vec<char>| c@) =~= old_rest.push(ps[i as int]));
        assert(ps.skip(n as int).take(i + 1 - n) =~= ps.skip(n as int).take(i - n).push(ps[i as int]));
        i = i + 1;
    }
    assert(ps.skip(n as int).take(i - n) =~= ps.skip(n as int));
    let joined = join_chars(&rest, '/');
    Some(seq_to_string(&joined))
}

/// The components of `p` joined by `/`: `p` without its root (`strip_prefix("/")`
/// of a path that has one).
pub fn relative_path(p: &str) -> (r: String)
    ensures
        r@ == relative_part(p@),
{
    let pchars = str_to_chars(p);
    let pc = components_exec(&pchars);
    let joined = join_chars(&pc, '/');
    seq_to_string(&joined)
}


// ---------------------------------------------------------------------------
// Facts about components.
// ---------------------------------------------------------------------------

/// The first `c` of `a + [c] + b` is the first of `a`, else the one added.
pub proof fn lemma_first_index_concat(a: Seq<char>, c: char, b: Seq<char>)
    ensures
        first_index(a, c) >= 0 ==> first_index(a + seq![c] + b, c) == first_index(a, c),
        first_index(a, c) < 0 ==> first_index(a + seq![c] + b, c) == a.len(),
{
    lemma_first_index(a, c);
    let s = a + seq![c] + b;
    lemma_first_index(s, c);
    let i = first_index(a, c);
    let j = first_index(s, c);
    if i >= 0 {
        assert(s[i] == c);
        if j < 0 || j > i {
            assert(s[i] != c);
        }
        if j < i {
            assert(a[j] == s[j]);
        }
    } else {
        assert(s[a.len() as int] == c);
        if j < 0 || j > a.len() {
            assert(s[a.len() as int] != c);
        }
        if j < a.len() {
            assert(a[j] == s[j]);
        }
    }
}

/// Splitting at a separator that joins two texts splits each of them.
pub proof fn lemma_split_concat(a: Seq<char>, c: char, b: Seq<char>)
    ensures
        split_spec(a + seq![c] + b, c) == split_spec(a, c) + split_spec(b, c),
    decreases a.len(),
{
    let s = a + seq![c] + b;
    lemma_first_index_concat(a, c, b);
    lemma_first_index(a, c);
    let i = first_index(a, c);
    if i >= 0 {
        let a2 = a.skip(i + 1);
        lemma_split_concat(a2, c, b);
        assert(s.skip(i + 1) =~= a2 + seq![c] + b);
        assert(s.take(i) =~= a.take(i));
        assert(split_spec(s, c) == seq![s.take(i)].add(split_spec(s.skip(i + 1), c)));
        assert(split_spec(a, c) == seq![a.take(i)].add(split_spec(a2, c)));
        assert(split_spec(s, c) =~= split_spec(a, c) + split_spec(b, c));
    } else {
        assert(s.take(a.len() as int) =~= a);
        assert(s.skip(a.len() as int + 1) =~= b);
        assert(split_spec(s, c) == seq![s.take(a.len() as int)].add(split_spec(s.skip(a.len() as int + 1), c)));
        assert(split_spec(a, c) == seq![a]);
    }
}

/// A piece that names no component is left out.
pub proof fn lemma_keep_single_skipped(e: Seq<char>)
    requires
        !is_component(e),
    ensures
        keep_components(seq![e]) == Seq::<Seq<char>>::empty(),
{
    assert(seq![e].last() == e);
    assert(seq![e].drop_last() =~= Seq::<Seq<char>>::empty());
    assert(keep_components(Seq::<Seq<char>>::empty()) == Seq::<Seq<char>>::empty());
}

/// Keeping components distributes over concatenation.
pub proof fn lemma_keep_concat(x: Seq<Seq<char>>, y: Seq<Seq<char>>)
    ensures
        keep_components(x + y) == keep_components(x) + keep_components(y),
    decreases y.len(),
{
    if y.len() == 0 {
        assert(x + y =~= x);
        assert(keep_components(y) =~= Seq::<Seq<char>>::empty());
        assert(keep_components(x) + keep_components(y) =~= keep_components(x));
    } else {
        lemma_keep_concat(x, y.drop_last());
        assert((x + y).drop_last() =~= x + y.drop_last());
        assert((x + y).last() == y.last());
        if is_component(y.last()) {
            assert(keep_components(x) + keep_components(y) =~= (keep_components(x) + keep_components(y.drop_last())).push(y.last()));
        }
    }
}

/// The components of a joined path are those of its two parts, when the
/// second part has no root.
pub proof fn lemma_components_join(base: Seq<char>, rel: Seq<char>)
    requires
        !has_root(rel),
    ensures
        components(path_join(base, rel)) == components(base) + components(rel),
{
    if base.len() > 0 && base.last() != '/' {
        lemma_split_concat(base, '/', rel);
        lemma_keep_concat(split_spec(base, '/'), split_spec(rel, '/'));
    } else if base.len() > 0 {
        let b2 = base.drop_last();
        assert(base =~= b2 + seq!['/'] + Seq::<char>::empty());
        lemma_split_concat(b2, '/', Seq::<char>::empty());
        assert(base + rel =~= b2 + seq!['/'] + rel);
        lemma_split_concat(b2, '/', rel);
        lemma_first_index(Seq::<char>::empty(), '/');
        assert(split_spec(Seq::<char>::empty(), '/') == seq![Seq::<char>::empty()]);
        lemma_keep_single_skipped(Seq::<char>::empty());
        lemma_keep_concat(split_spec(b2, '/'), seq![Seq::<char>::empty()]);
        lemma_keep_concat(split_spec(b2, '/'), split_spec(rel, '/'));
        assert(components(base) =~= keep_components(split_spec(b2, '/')));
    } else {
        assert(base + rel =~= rel);
        lemma_first_index(base, '/');
        assert(split_spec(base, '/') == seq![base]);
        lemma_keep_single_skipped(base);
    }
}

/// Pieces that all name components and hold no separator.
pub open spec fn clean_components(cs: Seq<Seq<char>>) -> bool {
    forall|i: int| 0 <= i < cs.len() ==> is_component(#[trigger] cs[i]) && !cs[i].contains('/')
}

/// A character that does not occur has no first index.
pub proof fn lemma_first_index_absent(s: Seq<char>, c: char)
    requires
        !s.contains(c),
    ensures
        first_index(s, c) == -1,
{
    lemma_first_index(s, c);
    if first_index(s, c) >= 0 {
        assert(s.contains(c));
    }
}

/// Splitting pieces without separators joined by `/` gives them back.
pub proof fn lemma_split_join(cs: Seq<Seq<char>>)
    requires
        cs.len() > 0,
        forall|i: int| 0 <= i < cs.len() ==> !(#[trigger] cs[i]).contains('/'),
    ensures
        split_spec(join_spec(cs, '/'), '/') == cs,
    decreases cs.len(),
{
    if cs.len() == 1 {
        lemma_first_index_absent(cs[0], '/');
        assert(join_spec(cs, '/') == cs[0]);
        assert(split_spec(cs[0], '/') =~= cs);
    } else {
        lemma_split_join(cs.drop_first());
        lemma_split_concat(cs[0], '/', join_spec(cs.drop_first(), '/'));
        lemma_first_index_absent(cs[0], '/');
        assert(split_spec(cs[0], '/') == seq![cs[0]]);
        assert(cs =~= seq![cs[0]] + cs.drop_first());
    }
}

/// Clean components are kept as they are.
pub proof fn lemma_keep_clean(cs: Seq<Seq<char>>)
    requires
        clean_components(cs),
    ensures
        keep_components(cs) == cs,
    decreases cs.len(),
{
    if cs.len() > 0 {
        lemma_keep_clean(cs.drop_last());
        assert(cs.drop_last().push(cs.last()) =~= cs);
    }
}

/// The components of a path are clean.
pub proof fn lemma_components_clean(p: Seq<char>)
    ensures
        clean_components(components(p)),
{
    lemma_keep_gives_clean(split_spec(p, '/'), p);
}

/// The pieces of a split hold no separator.
pub proof fn lemma_split_pieces_no_sep(s: Seq<char>, c: char)
    ensures
        forall|i: int| 0 <= i < split_spec(s, c).len() ==> !(#[trigger] split_spec(s, c)[i]).contains(c),
    decreases s.len(),
{
    lemma_first_index(s, c);
    let i = first_index(s, c);
    if i >= 0 {
        lemma_split_pieces_no_sep(s.skip(i + 1), c);
        let parts = split_spec(s, c);
        assert forall|k: int| 0 <= k < parts.len() implies !(#[trigger] parts[k]).contains(c) by {
            if k == 0 {
                if s.take(i).contains(c) {
                    let j = choose|j: int| 0 <= j < s.take(i).len() && s.take(i)[j] == c;
                    assert(s[j] == c);
                }
            } else {
                assert(parts[k] == split_spec(s.skip(i + 1), c)[k - 1]);
            }
        }
    } else {
        if s.contains(c) {
            let j = choose|j: int| 0 <= j < s.len() && s[j] == c;
            assert(s[j] != c);
        }
    }
}

/// The components kept from the pieces of a path are clean.
pub proof fn lemma_keep_gives_clean(pieces: Seq<Seq<char>>, p: Seq<char>)
    requires
        pieces == split_spec(p, '/'),
    ensures
        clean_components(keep_components(pieces)),
{
    lemma_split_pieces_no_sep(p, '/');
    lemma_keep_sub(pieces);
}

/// Each kept component names a component and is one of the pieces.
pub proof fn lemma_keep_sub(pieces: Seq<Seq<char>>)
    ensures
        forall|i: int| 0 <= i < keep_components(pieces).len() ==> is_component(#[trigger] keep_components(pieces)[i]) && exists|j: int| 0 <= j < pieces.len() && pieces[j] == keep_components(pieces)[i],
    decreases pieces.len(),
{
    if pieces.len() > 0 {
        lemma_keep_sub(pieces.drop_last());
        let k = keep_components(pieces);
        let k0 = keep_components(pieces.drop_last());
        assert forall|i: int| 0 <= i < k.len() implies is_component(#[trigger] k[i]) && exists|j: int| 0 <= j < pieces.len() && pieces[j] == k[i] by {
            if i < k0.len() {
                assert(k[i] == k0[i]);
                let j = choose|j: int| 0 <= j < pieces.drop_last().len() && pieces.drop_last()[j] == k0[i];
                assert(pieces[j] == k[i]);
            } else {
                assert(k[i] == pieces.last());
                assert(pieces[pieces.len() - 1] == k[i]);
            }
        }
    }
}

/// The components of the components joined by `/` are those components.
pub proof fn lemma_components_of_relative(p: Seq<char>)
    ensures
        components(relative_part(p)) == components(p),
        !has_root(relative_part(p)),
{
    let cs = components(p);
    lemma_components_clean(p);
    lemma_split_pieces_no_sep(p, '/');
    lemma_keep_sub(split_spec(p, '/'));
    if cs.len() > 0 {
        assert forall|i: int| 0 <= i < cs.len() implies !(#[trigger] cs[i]).contains('/') by {
            let j = choose|j: int| 0 <= j < split_spec(p, '/').len() && split_spec(p, '/')[j] == cs[i];
        }
        lemma_split_join(cs);
        lemma_keep_clean(cs);
        assert(cs[0].len() > 0);
        assert(!cs[0].contains('/'));
        if cs.len() == 1 {
            assert(relative_part(p) == cs[0]);
        } else {
            assert(relative_part(p) == cs[0] + seq!['/'] + join_spec(cs.drop_first(), '/'));
            assert(relative_part(p)[0] == cs[0][0]);
        }
        if has_root(relative_part(p)) {
            assert(cs[0][0] == '/');
            assert(cs[0].contains('/'));
        }
    } else {
        assert(relative_part(p) == Seq::<char>::empty());
        lemma_first_index(Seq::<char>::empty(), '/');
        assert(split_spec(Seq::<char>::empty(), '/') == seq![Seq::<char>::empty()]);
        lemma_keep_single_skipped(Seq::<char>::empty());
    }
}

// ---------------------------------------------------------------------------
// The text that `Path::strip_prefix` leaves.
// ---------------------------------------------------------------------------

/// The pieces of `ps` after the first `n` that name components.
pub open spec fn pieces_after(ps: Seq<Seq<char>>, n: nat) -> Seq<Seq<char>>
    decreases ps.len(),
{
    if n == 0 || ps.len() == 0 {
        ps
    } else if is_component(ps[0]) {
        pieces_after(ps.drop_first(), (n - 1) as nat)
    } else {
        pieces_after(ps.drop_first(), n)
    }
}

/// `ps` without the pieces at its front that name no component.
pub open spec fn trim_front(ps: Seq<Seq<char>>) -> Seq<Seq<char>>
    decreases ps.len(),
{
    if ps.len() > 0 && !is_component(ps[0]) {
        trim_front(ps.drop_first())
    } else {
        ps
    }
}

/// `ps` without the pieces at its back that name no component.
pub open spec fn trim_back(ps: Seq<Seq<char>>) -> Seq<Seq<char>>
    decreases ps.len(),
{
    if ps.len() > 0 && !is_component(ps.last()) {
        trim_back(ps.drop_last())
    } else {
        ps
    }
}

/// The text of `p` after its first `n` components, without the separators
/// and `.` pieces at either end; inside, the text is kept as it is. This is
/// the text `Path::strip_prefix` gives (`Components::as_path`).
pub open spec fn raw_rest(p: Seq<char>, n: nat) -> Seq<char> {
    join_spec(trim_back(trim_front(pieces_after(split_spec(p, '/'), n))), '/')
}

/// `p` without `base` (`Path::strip_prefix`), the rest kept as text, when
/// `p` starts with `base`.
pub open spec fn raw_strip_prefix(p: Seq<char>, base: Seq<char>) -> Option<Seq<char>> {
    if path_starts_with(p, base) {
        Some(raw_rest(p, components(base).len()))
    } else {
        None
    }
}

/// The path has a component right after its first separator and ends with
/// one: no `/` or `.` pieces at either end.
pub open spec fn ends_clean(p: Seq<char>) -> bool {
    let ps = split_spec(p, '/');
    ps.len() >= 2 && is_component(ps[1]) && is_component(ps.last())
}

/// `trim_front` drops the first `k` pieces, none of which names a component;
/// the piece after them, if any, does.
pub proof fn lemma_trim_front(ps: Seq<Seq<char>>) -> (k: int)
    ensures
        0 <= k <= ps.len(),
        trim_front(ps) == ps.skip(k),
        forall|i: int| 0 <= i < k ==> !is_component(#[trigger] ps[i]),
        k < ps.len() ==> is_component(ps[k]),
    decreases ps.len(),
{
    if ps.len() > 0 && !is_component(ps[0]) {
        let k1 = lemma_trim_front(ps.drop_first());
        assert(ps.drop_first().skip(k1) =~= ps.skip(k1 + 1));
        assert forall|i: int| 0 <= i < k1 + 1 implies !is_component(#[trigger] ps[i]) by {
            if i > 0 {
                assert(ps[i] == ps.drop_first()[i - 1]);
            }
        }
        if k1 + 1 < ps.len() {
            assert(ps[k1 + 1] == ps.drop_first()[k1]);
        }
        k1 + 1
    } else {
        assert(ps.skip(0) =~= ps);
        0
    }
}

/// `trim_back` keeps the first `k` pieces; none after them names a
/// component, and the last kept piece, if any, does.
pub proof fn lemma_trim_back(ps: Seq<Seq<char>>) -> (k: int)
    ensures
        0 <= k <= ps.len(),
        trim_back(ps) == ps.take(k),
        forall|i: int| k <= i < ps.len() ==> !is_component(#[trigger] ps[i]),
        k > 0 ==> is_component(ps[k - 1]),
    decreases ps.len(),
{
    if ps.len() > 0 && !is_component(ps.last()) {
        let k1 = lemma_trim_back(ps.drop_last());
        assert(ps.drop_last().take(k1) =~= ps.take(k1));
        assert forall|i: int| k1 <= i < ps.len() implies !is_component(#[trigger] ps[i]) by {
            if i < ps.len() - 1 {
                assert(ps[i] == ps.drop_last()[i]);
            }
        }
        if k1 > 0 {
            assert(ps[k1 - 1] == ps.drop_last()[k1 - 1]);
        }
        k1
    } else {
        assert(ps.take(ps.len() as int) =~= ps);
        ps.len() as int
    }
}

/// Pieces none of which names a component give no components.
pub proof fn lemma_keep_none(ps: Seq<Seq<char>>)
    requires
        forall|i: int| 0 <= i < ps.len() ==> !is_component(#[trigger] ps[i]),
    ensures
        keep_components(ps) == Seq::<Seq<char>>::empty(),
    decreases ps.len(),
{
    if ps.len() > 0 {
        assert forall|i: int| 0 <= i < ps.drop_last().len() implies !is_component(#[trigger] ps.drop_last()[i]) by {
            assert(ps.drop_last()[i] == ps[i]);
        }
        lemma_keep_none(ps.drop_last());
        assert(!is_component(ps[ps.len() - 1]));
    }
}

/// Trimming the ends keeps the components.
pub proof fn lemma_keep_trim(ps: Seq<Seq<char>>)
    ensures
        keep_components(trim_back(trim_front(ps))) == keep_components(ps),
{
    let k1 = lemma_trim_front(ps);
    let f = ps.skip(k1);
    assert(ps =~= ps.take(k1) + f);
    assert forall|i: int| 0 <= i < ps.take(k1).len() implies !is_component(#[trigger] ps.take(k1)[i]) by {
        assert(ps.take(k1)[i] == ps[i]);
    }
    lemma_keep_none(ps.take(k1));
    lemma_keep_concat(ps.take(k1), f);
    assert(keep_components(ps.take(k1)) + keep_components(f) =~= keep_components(f));
    let k2 = lemma_trim_back(f);
    assert(f =~= f.take(k2) + f.skip(k2));
    assert forall|i: int| 0 <= i < f.skip(k2).len() implies !is_component(#[trigger] f.skip(k2)[i]) by {
        assert(f.skip(k2)[i] == f[i + k2]);
    }
    lemma_keep_none(f.skip(k2));
    lemma_keep_concat(f.take(k2), f.skip(k2));
    assert(keep_components(f.take(k2)) + keep_components(f.skip(k2)) =~= keep_components(f.take(k2)));
}

/// Taking the components of `a` off `a + x`, when `a` ends with a
/// component, leaves the pieces of `x`.
pub proof fn lemma_pieces_after_concat(a: Seq<Seq<char>>, x: Seq<Seq<char>>)
    requires
        a.len() > 0,
        is_component(a.last()),
    ensures
        pieces_after(a + x, keep_components(a).len()) == x,
    decreases a.len(),
{
    let n = keep_components(a).len();
    assert(keep_components(a) == keep_components(a.drop_last()).push(a.last()));
    if a.len() == 1 {
        assert(a.drop_last() =~= Seq::<Seq<char>>::empty());
        assert(keep_components(Seq::<Seq<char>>::empty()) == Seq::<Seq<char>>::empty());
        assert(n == 1);
        assert((a + x).drop_first() =~= x);
        assert((a + x)[0] == a[0]);
        assert(a[0] == a.last());
        assert(pieces_after(a + x, n) == pieces_after((a + x).drop_first(), 0));
    } else {
        let a2 = a.drop_first();
        assert((a + x).drop_first() =~= a2 + x);
        assert((a + x)[0] == a[0]);
        assert(a2.last() == a.last());
        lemma_pieces_after_concat(a2, x);
        assert(a =~= seq![a[0]] + a2);
        lemma_keep_concat(seq![a[0]], a2);
        assert(seq![a[0]].drop_last() =~= Seq::<Seq<char>>::empty());
        assert(keep_components(a2) == keep_components(a2.drop_last()).push(a2.last()));
        let one = seq![a[0]];
        assert(one.last() == a[0]);
        assert(keep_components(Seq::<Seq<char>>::empty()) == Seq::<Seq<char>>::empty());
        assert(keep_components(a2).len() >= 1);
        if is_component(a[0]) {
            assert(keep_components(one) == keep_components(one.drop_last()).push(a[0]));
            assert(keep_components(one).len() == 1);
            assert(n == 1 + keep_components(a2).len());
            assert(pieces_after(a + x, n) == pieces_after((a + x).drop_first(), (n - 1) as nat));
        } else {
            assert(keep_components(one) == keep_components(one.drop_last()));
            assert(keep_components(one).len() == 0);
            assert(n == keep_components(a2).len());
            assert(pieces_after(a + x, n) == pieces_after((a + x).drop_first(), n));
        }
    }
}

/// The text of a path with no root: empty, or starting with its first piece.
proof fn lemma_join_first(q: Seq<Seq<char>>)
    requires
        q.len() > 0,
        q[0].len() > 0,
    ensures
        join_spec(q, '/')[0] == q[0][0],
{
    if q.len() > 1 {
        assert(join_spec(q, '/') == q[0] + seq!['/'] + join_spec(q.drop_first(), '/'));
    }
}

/// A path placed under a directory `base` as `Path::join` does with the
/// text `Path::strip_prefix("/")` leaves of it: the result lies in `base`,
/// taking `base` off gives that text back, and that text under `/` has the
/// components of the path; when the path has no `/` or `.` pieces at its
/// ends, it is the path itself.
pub proof fn lemma_raw_round_trip(base: Seq<char>, s: Seq<char>)
    requires
        has_root(base),
        base.last() != '/',
        is_component(split_spec(base, '/').last()),
        has_root(s),
    ensures
        !has_root(raw_rest(s, 0)),
        path_starts_with(path_join(base, raw_rest(s, 0)), base),
        raw_strip_prefix(path_join(base, raw_rest(s, 0)), base) == Some(raw_rest(s, 0)),
        components(path_join("/"@, raw_rest(s, 0))) == components(s),
        ends_clean(s) ==> path_join("/"@, raw_rest(s, 0)) == s,
{
    reveal_strlit("/");
    let ps = split_spec(s, '/');
    assert(pieces_after(ps, 0) == ps);
    let k1 = lemma_trim_front(ps);
    let f = ps.skip(k1);
    let k2 = lemma_trim_back(f);
    let q = f.take(k2);
    let t = join_spec(q, '/');
    assert(t == raw_rest(s, 0));
    lemma_split_pieces_no_sep(s, '/');
    assert forall|i: int| 0 <= i < q.len() implies !(#[trigger] q[i]).contains('/') && q[i] == ps[i + k1] by {
        assert(q[i] == f[i]);
        assert(f[i] == ps[i + k1]);
    }
    if q.len() > 0 {
        assert(q[0] == f[0]);
        assert(is_component(q[0]));
        assert(q.last() == f[k2 - 1]);
        assert(is_component(q.last()));
    }
    // The text has no root.
    if q.len() > 0 {
        lemma_join_first(q);
        assert(q[0].contains(q[0][0]));
    }
    assert(!has_root(t));
    // Splitting the text gives its pieces back, with the same trimmed form.
    let e = Seq::<char>::empty();
    lemma_first_index(e, '/');
    assert(split_spec(e, '/') == seq![e]);
    let st = split_spec(t, '/');
    if q.len() > 0 {
        lemma_split_join(q);
        assert(st == q);
        assert(trim_front(q) == q);
        assert(trim_back(q) == q);
    } else {
        assert(t == e);
        assert(st == seq![e]);
        assert(!is_component(st[0]));
        assert(st.drop_first() =~= Seq::<Seq<char>>::empty());
        assert(trim_front(st) == trim_front(Seq::<Seq<char>>::empty()));
    }
    assert(trim_back(trim_front(st)) == q);
    // The joined path.
    let bp = split_spec(base, '/');
    lemma_split_nonempty(base, '/');
    let joined = path_join(base, t);
    assert(joined == base + seq!['/'] + t);
    lemma_split_concat(base, '/', t);
    lemma_components_join(base, t);
    assert(joined[0] == base[0]);
    let cb = components(base);
    assert(components(joined).take(cb.len() as int) =~= cb);
    assert(path_starts_with(joined, base));
    lemma_pieces_after_concat(bp, st);
    assert(split_spec(joined, '/') == bp + st);
    assert(pieces_after(split_spec(joined, '/'), cb.len()) == st);
    assert(raw_rest(joined, cb.len()) == t);
    // The text under `/` has the components of the path.
    let under = path_join("/"@, t);
    assert(under == e + seq!['/'] + t);
    lemma_split_concat(e, '/', t);
    lemma_keep_concat(seq![e], st);
    lemma_keep_single_skipped(e);
    assert(components(under) == keep_components(st));
    lemma_keep_trim(ps);
    if q.len() == 0 {
        lemma_keep_single_skipped(e);
        lemma_keep_none(q);
    }
    assert(keep_components(st) == keep_components(q));
    // A path clean at its ends is that text under `/`.
    if ends_clean(s) {
        lemma_first_index(s, '/');
        assert(first_index(s, '/') == 0);
        assert(ps[0] == s.take(0));
        assert(ps[0] =~= e);
        assert(!is_component(ps[0]));
        assert(trim_front(ps) == trim_front(ps.drop_first()));
        assert(ps.drop_first()[0] == ps[1]);
        assert(trim_front(ps.drop_first()) == ps.drop_first());
        assert(ps.drop_first().last() == ps.last());
        assert(trim_back(ps.drop_first()) == ps.drop_first());
        assert(q == ps.drop_first());
        lemma_join_split(s, '/');
        assert(join_spec(ps, '/') == ps[0] + seq!['/'] + join_spec(ps.drop_first(), '/'));
        assert(s =~= under);
    }
}

/// Whether a piece names a component.
fn is_component_exec(piece: &Vec<char>) -> (r: bool)
    ensures
        r == is_component(piece@),
{
    if piece.len() == 0 {
        return false;
    }
    if piece.len() == 1 && piece[0] == '.' {
        assert(piece@ =~= seq!['.']);
        return false;
    }
    assert(piece@ != seq!['.']) by {
        if piece@ == seq!['.'] {
            assert(piece@.len() == 1 && piece@[0] == '.');
        }
    }
    true
}

/// The text of `p` after its first `n` components, without the separators
/// and `.` pieces at either end (see `raw_rest`).
pub fn rest_after_components(p: &str, n: usize) -> (r: String)
    ensures
        r@ == raw_rest(p@, n as nat),
{
    let pc = str_to_chars(p);
    let pieces = split_chars(&pc, '/');
    let ghost ps = pieces@.map_values(|x: Vec<char>| x@);
    assert(ps.skip(0) =~= ps);
    let mut i: usize = 0;
    let mut k: usize = n;
    while k > 0 && i < pieces.len()
        invariant
            i <= pieces.len(),
            ps == pieces@.map_values(|x: Vec<char>| x@),
            pieces_after(ps, n as nat) == pieces_after(ps.skip(i as int), k as nat),
        decreases pieces.len() - i,
    {
        let ghost rest = ps.skip(i as int);
        assert(rest.drop_first() =~= ps.skip(i + 1));
        assert(rest[0] == ps[i as int]);
        if is_component_exec(&pieces[i]) {
            k = k - 1;
        }
        i = i + 1;
    }
    if i == pieces.len() {
        assert(ps.skip(i as int) =~= Seq::<Seq<char>>::empty());
    }
    assert(pieces_after(ps, n as nat) == ps.skip(i as int));
    let ghost start = i;
    while i < pieces.len() && !is_component_exec(&pieces[i])
        invariant
            start <= i <= pieces.len(),
            ps == pieces@.map_values(|x: Vec<char>| x@),
            trim_front(ps.skip(start as int)) == trim_front(ps.skip(i as int)),
        decreases pieces.len() - i,
    {
        assert(ps.skip(i as int).drop_first() =~= ps.skip(i + 1));
        assert(ps.skip(i as int)[0] == ps[i as int]);
        i = i + 1;
    }
    if i < pieces.len() {
        assert(ps.skip(i as int)[0] == ps[i as int]);
    }
    assert(trim_front(ps.skip(i as int)) == ps.skip(i as int));
    assert(ps.skip(i as int) =~= ps.subrange(i as int, pieces.len() as int));
    let mut j: usize = pieces.len();
    while j > i && !is_component_exec(&pieces[j - 1])
        invariant
            i <= j <= pieces.len(),
            ps == pieces@.map_values(|x: Vec<char>| x@),
            trim_back(ps.subrange(i as int, pieces.len() as int)) == trim_back(ps.subrange(i as int, j as int)),
        decreases j,
    {
        assert(ps.subrange(i as int, j as int).drop_last() =~= ps.subrange(i as int, j - 1));
        assert(ps.subrange(i as int, j as int).last() == ps[j - 1]);
        j = j - 1;
    }
    if j > i {
        assert(ps.subrange(i as int, j as int).last() == ps[j - 1]);
    }
    assert(trim_back(ps.subrange(i as int, j as int)) == ps.subrange(i as int, j as int));
    let mut kept: Vec<Vec<char>> = Vec::new();
    let mut m: usize = i;
    while m < j
        invariant
            i <= m <= j <= pieces.len(),
            ps == pieces@.map_values(|x: Vec<char>| x@),
            kept@.map_values(|x: Vec<char>| x@) == ps.subrange(i as int, m as int),
        decreases j - m,
    {
        let mut c: Vec<char> = Vec::new();
        extend_chars(&mut c, &pieces[m]);
        let ghost before = kept@.map_values(|x: Vec<char>| x@);
        kept.push(c);
        assert(kept@.map_values(|x: Vec<char>| x@) =~= before.push(ps[m as int]));
        assert(ps.subrange(i as int, m + 1) =~= ps.subrange(i as int, m as int).push(ps[m as int]));
        m = m + 1;
    }
    let joined = join_chars(&kept, '/');
    seq_to_string(&joined)
}

/// `p` without `base`, the rest kept as text, when `p` starts with `base`
/// (`Path::strip_prefix`).
pub fn strip_path_prefix_raw(p: &str, base: &str) -> (r: Option<String>)
    ensures
        match raw_strip_prefix(p@, base@) {
            Some(rest) => r matches Some(s) && s@ == rest,
            None => r is None,
        },
{
    if !path_starts_with_exec(p, base) {
        return None;
    }
    let bchars = str_to_chars(base);
    let bc = components_exec(&bchars);
    Some(rest_after_components(p, bc.len()))
}

} // verus!
