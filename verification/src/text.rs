//! Character-level helpers shared by the parsers and serializers.

use vstd::prelude::*;
use vstd::std_specs::iter::IteratorSpec;
use vstd::string::StrSliceExecFns;

verus! {

/// Collects the characters of a string slice.
pub fn str_to_chars(s: &str) -> (v: Vec<char>)
    ensures
        v@ == s@,
{
    let mut v: Vec<char> = Vec::new();
    for c in iter: s.chars()
        invariant
            iter.seq() == s@,
            v@ == s@.take(iter.index() as int),
    {
        v.push(c);
    }
    v
}

/// Appends one character to a string (`String::push`).
#[verifier::external_body]
pub(crate) fn push_char(s: &mut String, c: char)
    ensures
        final(s)@ == old(s)@.push(c),
{
    s.push(c);
}

/// Builds a string from the characters `v[from..to]`.
pub fn chars_to_string(v: &Vec<char>, from: usize, to: usize) -> (s: String)
    requires
        from <= to <= v.len(),
    ensures
        s@ == v@.subrange(from as int, to as int),
{
    let mut s = String::new();
    let mut i = from;
    while i < to
        invariant
            from <= i <= to <= v.len(),
            s@ == v@.subrange(from as int, i as int),
        decreases to - i,
    {
        push_char(&mut s, v[i]);
        i = i + 1;
        assert(s@ =~= v@.subrange(from as int, i as int));
    }
    s
}

/// Builds a string holding all the characters of `v`.
pub fn seq_to_string(v: &Vec<char>) -> (s: String)
    ensures
        s@ == v@,
{
    let s = chars_to_string(v, 0, v.len());
    assert(v@.subrange(0, v@.len() as int) =~= v@);
    s
}

/// Appends the characters of `src` to the end of `dst`.
pub fn extend_chars(dst: &mut Vec<char>, src: &Vec<char>)
    ensures
        final(dst)@ == old(dst)@ + src@,
{
    let mut i: usize = 0;
    while i < src.len()
        invariant
            i <= src.len(),
            dst@ == old(dst)@ + src@.take(i as int),
        decreases src.len() - i,
    {
        dst.push(src[i]);
        i = i + 1;
        assert(dst@ =~= old(dst)@ + src@.take(i as int));
    }
    assert(src@.take(src@.len() as int) =~= src@);
}

/// Appends the characters of a string slice to the end of `dst`.
pub fn extend_str(dst: &mut Vec<char>, src: &str)
    ensures
        final(dst)@ == old(dst)@ + src@,
{
    let v = str_to_chars(src);
    extend_chars(dst, &v);
}

/// Whether two character sequences are equal.
pub fn chars_eq(a: &Vec<char>, b: &Vec<char>) -> (r: bool)
    ensures
        r == (a@ == b@),
{
    if a.len() != b.len() {
        return false;
    }
    let mut i: usize = 0;
    while i < a.len()
        invariant
            a.len() == b.len(),
            i <= a.len(),
            forall|j: int| 0 <= j < i ==> a@[j] == b@[j],
        decreases a.len() - i,
    {
        if a[i] != b[i] {
            return false;
        }
        i = i + 1;
    }
    assert(a@ =~= b@);
    true
}

/// Whether two strings hold the same characters.
pub fn str_eq(a: &str, b: &str) -> (r: bool)
    ensures
        r == (a@ == b@),
{
    let va = str_to_chars(a);
    let vb = str_to_chars(b);
    chars_eq(&va, &vb)
}

/// Whether `c` occurs in `s`.
pub fn chars_contain(s: &Vec<char>, c: char) -> (r: bool)
    ensures
        r == s@.contains(c),
{
    let mut i: usize = 0;
    while i < s.len()
        invariant
            i <= s.len(),
            forall|j: int| 0 <= j < i ==> s@[j] != c,
        decreases s.len() - i,
    {
        if s[i] == c {
            assert(s@[i as int] == c);
            return true;
        }
        i = i + 1;
    }
    false
}

/// `p` is a prefix of `s`.
pub open spec fn has_prefix(s: Seq<char>, p: Seq<char>) -> bool {
    p.len() <= s.len() && s.subrange(0, p.len() as int) == p
}

/// `p` is a suffix of `s`.
pub open spec fn has_suffix(s: Seq<char>, p: Seq<char>) -> bool {
    p.len() <= s.len() && s.subrange(s.len() - p.len(), s.len() as int) == p
}

/// `p` occurs in `s` at position `i`.
pub open spec fn occurs_at(s: Seq<char>, p: Seq<char>, i: int) -> bool {
    0 <= i && i + p.len() <= s.len() && s.subrange(i, i + p.len()) == p
}

/// Whether `p` occurs in `s` starting at position `i`.
pub fn occurs_at_exec(s: &Vec<char>, p: &Vec<char>, i: usize) -> (r: bool)
    ensures
        r == occurs_at(s@, p@, i as int),
{
    if i > s.len() || p.len() > s.len() - i {
        return false;
    }
    let mut j: usize = 0;
    while j < p.len()
        invariant
            i + p.len() <= s.len(),
            j <= p.len(),
            forall|k: int| 0 <= k < j ==> s@[i + k] == p@[k],
        decreases p.len() - j,
    {
        if s[i + j] != p[j] {
            assert(s@.subrange(i as int, i + p.len())[j as int] != p@[j as int]);
            return false;
        }
        j = j + 1;
    }
    assert(s@.subrange(i as int, i + p.len()) =~= p@);
    true
}

/// Whether `s` starts with `p`.
pub fn starts_with_chars(s: &Vec<char>, p: &Vec<char>) -> (r: bool)
    ensures
        r == has_prefix(s@, p@),
{
    occurs_at_exec(s, p, 0)
}

/// Whether `s` ends with `p`.
pub fn ends_with_chars(s: &Vec<char>, p: &Vec<char>) -> (r: bool)
    ensures
        r == has_suffix(s@, p@),
{
    if p.len() > s.len() {
        return false;
    }
    occurs_at_exec(s, p, s.len() - p.len())
}

/// Whether `p` occurs anywhere in `s`.
pub open spec fn contains_seq(s: Seq<char>, p: Seq<char>) -> bool {
    exists|i: int| occurs_at(s, p, i)
}

/// Whether `p` occurs anywhere in `s`.
pub fn contains_chars(s: &Vec<char>, p: &Vec<char>) -> (r: bool)
    ensures
        r == contains_seq(s@, p@),
{
    let mut i: usize = 0;
    while i < s.len()
        invariant
            i <= s.len(),
            forall|k: int| 0 <= k < i ==> !occurs_at(s@, p@, k),
        decreases s.len() - i,
    {
        if occurs_at_exec(s, p, i) {
            return true;
        }
        i = i + 1;
    }
    if occurs_at_exec(s, p, i) {
        return true;
    }
    assert forall|k: int| !occurs_at(s@, p@, k) by {
        if 0 <= k <= i {
        }
    }
    false
}

} // verus!

verus! {

/// What `String::from_utf8_lossy` makes of a byte sequence.
pub uninterp spec fn utf8_lossy(bytes: Seq<u8>) -> Seq<char>;

/// Decodes bytes as UTF-8, each invalid sequence becoming U+FFFD
/// (`String::from_utf8_lossy`). The contract names the result and states the
/// documented case: valid UTF-8 decodes to exactly the characters it encodes.
#[verifier::external_body]
pub(crate) fn bytes_to_string_lossy(bytes: &[u8]) -> (s: String)
    ensures
        s@ == utf8_lossy(bytes@),
        vstd::utf8::valid_utf8(bytes@) ==> s@ == vstd::utf8::decode_utf8(bytes@),
{
    String::from_utf8_lossy(bytes).into_owned()
}

/// The characters of `bytes` decoded as by `String::from_utf8_lossy`.
pub fn bytes_to_chars_lossy(bytes: &[u8]) -> (v: Vec<char>)
    ensures
        v@ == utf8_lossy(bytes@),
        vstd::utf8::valid_utf8(bytes@) ==> v@ == vstd::utf8::decode_utf8(bytes@),
{
    let s = bytes_to_string_lossy(bytes);
    str_to_chars(s.as_str())
}

/// Copies `v[from..to]` into a new vector.
pub fn sub_chars(v: &Vec<char>, from: usize, to: usize) -> (r: Vec<char>)
    requires
        from <= to <= v.len(),
    ensures
        r@ == v@.subrange(from as int, to as int),
{
    let mut r: Vec<char> = Vec::new();
    let mut i = from;
    while i < to
        invariant
            from <= i <= to <= v.len(),
            r@ == v@.subrange(from as int, i as int),
        decreases to - i,
    {
        r.push(v[i]);
        i = i + 1;
        assert(r@ =~= v@.subrange(from as int, i as int));
    }
    r
}

} // verus!

verus! {

/// `s` with every occurrence of `pat` replaced by `rep`, scanning from the left
/// and never reusing replaced characters (`str::replace`). An empty pattern
/// matches before every character and at the end.
pub open spec fn replace_spec(s: Seq<char>, pat: Seq<char>, rep: Seq<char>) -> Seq<char>
    decreases s.len(),
{
    if pat.len() == 0 {
        if s.len() == 0 {
            rep
        } else {
            rep + seq![s[0]] + replace_spec(s.drop_first(), pat, rep)
        }
    } else if s.len() == 0 {
        Seq::empty()
    } else if has_prefix(s, pat) {
        rep + replace_spec(s.skip(pat.len() as int), pat, rep)
    } else {
        seq![s[0]] + replace_spec(s.drop_first(), pat, rep)
    }
}

/// Replaces every occurrence of `pat` in `s` by `rep`.
pub fn replace_chars(s: &Vec<char>, pat: &Vec<char>, rep: &Vec<char>) -> (r: Vec<char>)
    ensures
        r@ == replace_spec(s@, pat@, rep@),
{
    let mut out: Vec<char> = Vec::new();
    let mut i: usize = 0;
    assert(s@.skip(0) =~= s@);
    while i < s.len()
        invariant
            i <= s.len(),
            out@ + replace_spec(s@.skip(i as int), pat@, rep@) == replace_spec(s@, pat@, rep@),
        decreases s.len() - i,
    {
        let ghost rest = s@.skip(i as int);
        if pat.len() == 0 {
            let ghost old_out = out@;
            extend_chars(&mut out, rep);
            out.push(s[i]);
            assert(rest.drop_first() =~= s@.skip(i + 1));
            assert(rest[0] == s@[i as int]);
            assert(out@ + replace_spec(s@.skip(i + 1), pat@, rep@) =~= old_out + replace_spec(rest, pat@, rep@));
            i = i + 1;
        } else if occurs_at_exec(s, pat, i) {
            let ghost old_out = out@;
            assert(rest.subrange(0, pat@.len() as int) =~= s@.subrange(i as int, i + pat@.len()));
            extend_chars(&mut out, rep);
            assert(rest.skip(pat@.len() as int) =~= s@.skip(i + pat@.len()));
            assert(out@ + replace_spec(s@.skip(i + pat@.len()), pat@, rep@) =~= old_out + replace_spec(rest, pat@, rep@));
            i = i + pat.len();
        } else {
            let ghost old_out = out@;
            assert(!has_prefix(rest, pat@)) by {
                if has_prefix(rest, pat@) {
                    assert(rest.subrange(0, pat@.len() as int) =~= s@.subrange(i as int, i + pat@.len()));
                }
            }
            out.push(s[i]);
            assert(rest.drop_first() =~= s@.skip(i + 1));
            assert(out@ + replace_spec(s@.skip(i + 1), pat@, rep@) =~= old_out + replace_spec(rest, pat@, rep@));
            i = i + 1;
        }
    }
    assert(s@.skip(i as int) =~= Seq::<char>::empty());
    if pat.len() == 0 {
        let ghost old_out = out@;
        extend_chars(&mut out, rep);
        assert(out@ =~= old_out + replace_spec(s@.skip(i as int), pat@, rep@));
    } else {
        assert(out@ =~= out@ + replace_spec(s@.skip(i as int), pat@, rep@));
    }
    out
}

/// Index of the first `c` in `s`, or -1.
pub open spec fn first_index(s: Seq<char>, c: char) -> int
    decreases s.len(),
{
    if s.len() == 0 {
        -1
    } else if s[0] == c {
        0
    } else {
        let r = first_index(s.drop_first(), c);
        if r < 0 {
            -1
        } else {
            r + 1
        }
    }
}

/// `first_index` is the first position of `c`, or -1 when it does not occur.
pub proof fn lemma_first_index(s: Seq<char>, c: char)
    ensures
        -1 <= first_index(s, c) < s.len(),
        first_index(s, c) >= 0 ==> s[first_index(s, c)] == c,
        forall|k: int| 0 <= k < s.len() && (first_index(s, c) < 0 || k < first_index(s, c)) ==> #[trigger] s[k] != c,
    decreases s.len(),
{
    if s.len() > 0 && s[0] != c {
        lemma_first_index(s.drop_first(), c);
        assert forall|k: int| 0 <= k < s.len() && (first_index(s, c) < 0 || k < first_index(s, c)) implies #[trigger] s[k] != c by {
            if k > 0 {
                assert(s[k] == s.drop_first()[k - 1]);
            }
        }
    }
}

/// The pieces of `s` between occurrences of `c` (`str::split` with a char):
/// `n` separators give `n + 1` pieces, some possibly empty.
pub open spec fn split_spec(s: Seq<char>, c: char) -> Seq<Seq<char>>
    decreases s.len(),
{
    let i = first_index(s, c);
    if i < 0 {
        seq![s]
    } else {
        proof {
            lemma_first_index(s, c);
        }
        seq![s.take(i)].add(split_spec(s.skip(i + 1), c))
    }
}

/// The pieces joined with `c` between each two (`[T]::join`).
pub open spec fn join_spec(parts: Seq<Seq<char>>, c: char) -> Seq<char>
    decreases parts.len(),
{
    if parts.len() == 0 {
        Seq::empty()
    } else if parts.len() == 1 {
        parts[0]
    } else {
        parts[0] + seq![c] + join_spec(parts.drop_first(), c)
    }
}

/// A split gives at least one piece.
pub proof fn lemma_split_nonempty(s: Seq<char>, c: char)
    ensures
        split_spec(s, c).len() >= 1,
    decreases s.len(),
{
    lemma_first_index(s, c);
}

/// Joining the pieces of a split gives back the text that was split.
pub proof fn lemma_join_split(s: Seq<char>, c: char)
    ensures
        join_spec(split_spec(s, c), c) == s,
    decreases s.len(),
{
    lemma_first_index(s, c);
    let i = first_index(s, c);
    if i >= 0 {
        let rest = s.skip(i + 1);
        lemma_join_split(rest, c);
        lemma_split_nonempty(rest, c);
        let parts = split_spec(s, c);
        assert(parts.drop_first() =~= split_spec(rest, c));
        assert(s =~= s.take(i) + seq![c] + rest);
    }
}

/// Splits `s` at every `c`.
pub fn split_chars(s: &Vec<char>, c: char) -> (r: Vec<Vec<char>>)
    ensures
        r@.map_values(|p: Vec<char>| p@) == split_spec(s@, c),
{
    let mut r: Vec<Vec<char>> = Vec::new();
    let mut start: usize = 0;
    let mut i: usize = 0;
    assert(s@.skip(0) =~= s@);
    while i < s.len()
        invariant
            start <= i <= s.len(),
            forall|k: int| start <= k < i ==> #[trigger] s@[k] != c,
            r@.map_values(|p: Vec<char>| p@) + split_spec(s@.skip(start as int), c) == split_spec(s@, c),
        decreases s.len() - i,
    {
        if s[i] == c {
            let ghost rest = s@.skip(start as int);
            proof {
                lemma_first_index(rest, c);
                assert(rest[i - start] == c);
                assert forall|k: int| 0 <= k < i - start implies rest[k] != c by {
                    assert(rest[k] == s@[start + k]);
                }
                assert(first_index(rest, c) == i - start) by {
                    if first_index(rest, c) < 0 {
                        assert(rest[i - start] != c);
                    } else if first_index(rest, c) < i - start {
                        assert(rest[first_index(rest, c)] != c);
                    } else if first_index(rest, c) > i - start {
                        assert(rest[i - start] != c);
                    }
                }
            }
            let piece = sub_chars(s, start, i);
            let ghost old_r = r@.map_values(|p: Vec<char>| p@);
            r.push(piece);
            assert(rest.take(i - start) =~= piece@);
            assert(rest.skip(i - start + 1) =~= s@.skip(i + 1));
            assert(r@.map_values(|p: Vec<char>| p@) =~= old_r.push(piece@));
            assert(old_r.push(piece@) + split_spec(s@.skip(i + 1), c) =~= old_r + split_spec(rest, c));
            start = i + 1;
        }
        i = i + 1;
    }
    let ghost rest = s@.skip(start as int);
    proof {
        lemma_first_index(rest, c);
        assert(first_index(rest, c) < 0) by {
            if first_index(rest, c) >= 0 {
                assert(rest[first_index(rest, c)] == s@[start + first_index(rest, c)]);
            }
        }
    }
    let piece = sub_chars(s, start, s.len());
    let ghost old_r = r@.map_values(|p: Vec<char>| p@);
    r.push(piece);
    assert(piece@ =~= rest);
    assert(r@.map_values(|p: Vec<char>| p@) =~= old_r.push(piece@));
    assert(r@.map_values(|p: Vec<char>| p@) =~= split_spec(s@, c));
    r
}

/// Joins the pieces with `c` between each two.
pub fn join_chars(parts: &Vec<Vec<char>>, c: char) -> (r: Vec<char>)
    ensures
        r@ == join_spec(parts@.map_values(|p: Vec<char>| p@), c),
{
    let ghost ps = parts@.map_values(|p: Vec<char>| p@);
    let mut out: Vec<char> = Vec::new();
    if parts.len() == 0 {
        return out;
    }
    let mut i: usize = parts.len() - 1;
    extend_chars(&mut out, &parts[i]);
    assert(ps.skip(i as int) =~= seq![ps[i as int]]);
    while i > 0
        invariant
            0 <= i < parts.len(),
            ps == parts@.map_values(|p: Vec<char>| p@),
            out@ == join_spec(ps.skip(i as int), c),
        decreases i,
    {
        let mut next: Vec<char> = Vec::new();
        extend_chars(&mut next, &parts[i - 1]);
        next.push(c);
        extend_chars(&mut next, &out);
        assert(ps.skip(i - 1).drop_first() =~= ps.skip(i as int));
        assert(ps.skip(i - 1)[0] == ps[i - 1]);
        out = next;
        i = i - 1;
    }
    assert(ps.skip(0) =~= ps);
    out
}

} // verus!

verus! {

/// An ASCII decimal digit.
pub open spec fn is_digit(c: char) -> bool {
    '0' <= c && c <= '9'
}

/// The value of a decimal digit.
pub open spec fn digit_value(c: char) -> int {
    c as int - '0' as int
}

/// The decimal digit for `d` (0..=9).
pub open spec fn digit_char(d: int) -> char {
    ((d + 48) as u8) as char
}

/// The value of a string of decimal digits (0 for the empty string).
pub open spec fn digits_value(s: Seq<char>) -> nat
    decreases s.len(),
{
    if s.len() == 0 {
        0
    } else {
        (digits_value(s.drop_last()) * 10 + digit_value(s.last())) as nat
    }
}

/// All characters are decimal digits.
pub open spec fn all_digits(s: Seq<char>) -> bool {
    forall|i: int| 0 <= i < s.len() ==> is_digit(#[trigger] s[i])
}

/// What `str::parse::<u32>` gives: an optional `+`, then one or more decimal
/// digits whose value fits in a `u32`.
pub open spec fn parse_u32_spec(s: Seq<char>) -> Option<u32> {
    let d = if s.len() > 0 && s[0] == '+' {
        s.drop_first()
    } else {
        s
    };
    if d.len() == 0 || !all_digits(d) || digits_value(d) > u32::MAX {
        None
    } else {
        Some(digits_value(d) as u32)
    }
}

/// The decimal writing of `n`, without leading zeros.
pub open spec fn decimal_spec(n: nat) -> Seq<char>
    decreases n,
{
    if n < 10 {
        seq![digit_char(n as int)]
    } else {
        decimal_spec(n / 10).push(digit_char((n % 10) as int))
    }
}

/// `digit_char` gives the digit of a value below ten.
pub proof fn lemma_digit_char(d: int)
    requires
        0 <= d < 10,
    ensures
        is_digit(digit_char(d)),
        digit_value(digit_char(d)) == d,
        digit_char(d) != '+',
{
    assert(((d + 48) as u8) as int == d + 48);
    assert(((d + 48) as u8) as char as int == d + 48) by {
        let b = (d + 48) as u8;
        assert(b as char as int == b as int);
    }
}

/// The decimal text of a number is made of digits, is not empty, and has that value.
pub proof fn lemma_decimal(n: nat)
    ensures
        all_digits(decimal_spec(n)),
        digits_value(decimal_spec(n)) == n,
        decimal_spec(n).len() > 0,
        decimal_spec(n)[0] != '+',
    decreases n,
{
    if n < 10 {
        lemma_digit_char(n as int);
        let s = decimal_spec(n);
        assert(s.drop_last() =~= Seq::<char>::empty());
        assert(digits_value(Seq::<char>::empty()) == 0);
        assert(digits_value(s) == digits_value(s.drop_last()) * 10 + digit_value(s.last()));
    } else {
        lemma_decimal(n / 10);
        lemma_digit_char((n % 10) as int);
        let s = decimal_spec(n);
        assert(s.drop_last() =~= decimal_spec(n / 10));
        assert(s[0] == decimal_spec(n / 10)[0]);
        assert(digits_value(s) == digits_value(s.drop_last()) * 10 + digit_value(s.last()));
        assert((n / 10) * 10 + n % 10 == n) by (nonlinear_arith);
        assert forall|i: int| 0 <= i < s.len() implies is_digit(#[trigger] s[i]) by {
            if i < s.len() - 1 {
                assert(s[i] == decimal_spec(n / 10)[i]);
            }
        }
    }
}

/// Reading back the decimal writing of a `u32` gives the number.
pub proof fn lemma_parse_decimal(n: u32)
    ensures
        parse_u32_spec(decimal_spec(n as nat)) == Some(n),
{
    lemma_decimal(n as nat);
}

/// A prefix of a run of digits has no greater value.
pub proof fn lemma_digits_value_prefix(s: Seq<char>, i: int)
    requires
        0 <= i <= s.len(),
        all_digits(s),
    ensures
        digits_value(s.take(i)) <= digits_value(s),
    decreases s.len() - i,
{
    if i < s.len() {
        lemma_digits_value_prefix(s, i + 1);
        assert(s.take(i + 1).drop_last() =~= s.take(i));
        assert(is_digit(s[i]));
    } else {
        assert(s.take(i) =~= s);
    }
}

/// Parses a decimal `u32` the way `str::parse::<u32>` does.
pub fn parse_u32(s: &str) -> (r: Option<u32>)
    ensures
        r == parse_u32_spec(s@),
{
    let c = str_to_chars(s);
    let start: usize = if c.len() > 0 && c[0] == '+' {
        1
    } else {
        0
    };
    let ghost d = if s@.len() > 0 && s@[0] == '+' {
        s@.drop_first()
    } else {
        s@
    };
    assert(d =~= c@.skip(start as int));
    if c.len() == start {
        return None;
    }
    let mut acc: u64 = 0;
    let mut i = start;
    while i < c.len()
        invariant
            start <= i <= c.len(),
            c@ == s@,
            d == c@.skip(start as int),
            d == (if s@.len() > 0 && s@[0] == '+' {
                s@.drop_first()
            } else {
                s@
            }),
            d.len() > 0,
            all_digits(d.take(i - start)),
            acc == digits_value(d.take(i - start)),
            acc <= u32::MAX,
        decreases c.len() - i,
    {
        let ch = c[i];
        if !('0' <= ch && ch <= '9') {
            assert(!all_digits(d)) by {
                assert(d[i - start] == ch);
            }
            return None;
        }
        let dv = (ch as u32 - '0' as u32) as u64;
        assert(d.take(i - start + 1).drop_last() =~= d.take(i - start));
        assert(d.take(i - start + 1).last() == ch);
        acc = acc * 10 + dv;
        i = i + 1;
        assert(all_digits(d.take(i - start))) by {
            assert forall|k: int| 0 <= k < d.take(i - start).len() implies is_digit(#[trigger] d.take(i - start)[k]) by {
                if k < i - start - 1 {
                    assert(d.take(i - start)[k] == d.take(i - start - 1)[k]);
                }
            }
        }
        if acc > 0xffff_ffff {
            proof {
                if all_digits(d) {
                    lemma_digits_value_prefix(d, i - start);
                }
            }
            return None;
        }
    }
    assert(d.take(i - start) =~= d);
    Some(acc as u32)
}

/// The decimal digits of `n`.
pub fn decimal_chars(n: u32) -> (r: Vec<char>)
    ensures
        r@ == decimal_spec(n as nat),
    decreases n,
{
    if n < 10 {
        let mut v: Vec<char> = Vec::new();
        v.push(((n as u8) + 48) as char);
        assert(v@ =~= decimal_spec(n as nat));
        v
    } else {
        let mut v = decimal_chars(n / 10);
        v.push((((n % 10) as u8) + 48) as char);
        assert(v@ =~= decimal_spec(n as nat));
        v
    }
}

} // verus!

verus! {

/// Splits a string slice at every `c`, giving slices of it (`str::split`).
pub fn split_str<'a>(s: &'a str, c: char) -> (r: Vec<&'a str>)
    ensures
        r@.map_values(|x: &str| x@) == split_spec(s@, c),
{
    let sc = str_to_chars(s);
    let pieces = split_chars(&sc, c);
    let ghost ps = pieces@.map_values(|p: Vec<char>| p@);
    proof {
        lemma_join_split(s@, c);
        lemma_split_nonempty(s@, c);
    }
    let mut r: Vec<&'a str> = Vec::new();
    let mut start: usize = 0;
    let mut k: usize = 0;
    assert(ps.skip(0) =~= ps);
    assert(s@.skip(0) =~= s@);
    while k < pieces.len()
        invariant
            k <= pieces.len(),
            pieces.len() >= 1,
            ps == pieces@.map_values(|p: Vec<char>| p@),
            ps == split_spec(s@, c),
            sc@ == s@,
            start <= s@.len(),
            k < pieces.len() ==> s@.skip(start as int) == join_spec(ps.skip(k as int), c),
            r@.map_values(|x: &str| x@) == ps.take(k as int),
        decreases pieces.len() - k,
    {
        let len = pieces[k].len();
        let ghost rest = ps.skip(k as int);
        let ghost tail = s@.skip(start as int);
        assert(rest[0] == ps[k as int]);
        proof {
            if rest.len() > 1 {
                assert(join_spec(rest, c) == rest[0] + seq![c] + join_spec(rest.drop_first(), c));
                assert(rest.drop_first() =~= ps.skip(k + 1));
            } else {
                assert(join_spec(rest, c) == rest[0]);
            }
        }
        assert(tail.subrange(0, len as int) =~= ps[k as int]);
        assert(start + len <= s@.len());
        assert(s@.len() == sc.len());
        let piece = s.substring_char(start, start + len);
        assert(piece@ =~= s@.subrange(start as int, start + len));
        assert(piece@ =~= ps[k as int]);
        let ghost old_r = r@.map_values(|x: &str| x@);
        r.push(piece);
        assert(r@.map_values(|x: &str| x@) =~= old_r.push(ps[k as int]));
        assert(ps.take(k + 1) =~= ps.take(k as int).push(ps[k as int]));
        if k + 1 < pieces.len() {
            assert(tail[len as int] == c);
            assert(start + len < s@.len());
            assert(s@.skip(start + len + 1) =~= tail.skip(len + 1));
            assert(tail.skip(len + 1) =~= join_spec(ps.skip(k + 1), c));
            start = start + len + 1;
        }
        k = k + 1;
    }
    assert(ps.take(k as int) =~= ps);
    r
}

} // verus!

verus! {

/// A line without the `\r` of a `\r\n` ending.
pub open spec fn strip_cr(p: Seq<char>) -> Seq<char> {
    if p.len() > 0 && p.last() == '\r' {
        p.drop_last()
    } else {
        p
    }
}

/// The lines of `s` as `str::lines` gives them: split at `\n`, the `\r` of a
/// `\r\n` dropped, and no empty line after a final `\n`.
pub open spec fn lines_spec(s: Seq<char>) -> Seq<Seq<char>>
    decreases s.len(),
{
    if s.len() == 0 {
        Seq::empty()
    } else {
        let i = first_index(s, '\n');
        if i < 0 {
            seq![s]
        } else {
            proof {
                lemma_first_index(s, '\n');
            }
            seq![strip_cr(s.take(i))] + lines_spec(s.skip(i + 1))
        }
    }
}

/// The lines read off the pieces of a split at `\n`: every piece but the last
/// was ended by a `\n`, the last one counts only when it is not empty.
pub open spec fn lines_of_pieces(p: Seq<Seq<char>>) -> Seq<Seq<char>> {
    let n = (p.len() - 1) as nat;
    let body = Seq::new(n, |k: int| strip_cr(p[k]));
    if p.last().len() == 0 {
        body
    } else {
        body.push(p.last())
    }
}

/// The lines of a text are read from its pieces between line breaks.
pub proof fn lemma_lines_of_pieces(s: Seq<char>)
    ensures
        lines_spec(s) == lines_of_pieces(split_spec(s, '\n')),
    decreases s.len(),
{
    lemma_first_index(s, '\n');
    lemma_split_nonempty(s, '\n');
    let i = first_index(s, '\n');
    if i < 0 {
        assert(lines_of_pieces(split_spec(s, '\n')) =~= lines_spec(s));
    } else {
        let rest = s.skip(i + 1);
        lemma_lines_of_pieces(rest);
        lemma_split_nonempty(rest, '\n');
        let p = split_spec(s, '\n');
        let q = split_spec(rest, '\n');
        assert(p =~= seq![s.take(i)] + q);
        assert(lines_of_pieces(p) =~= seq![strip_cr(s.take(i))] + lines_of_pieces(q));
    }
}

/// The lines of a string slice, as slices of it (`str::lines`).
pub fn lines_str<'a>(s: &'a str) -> (r: Vec<&'a str>)
    ensures
        r@.map_values(|x: &str| x@) == lines_spec(s@),
{
    let pieces = split_str(s, '\n');
    let ghost p = split_spec(s@, '\n');
    proof {
        lemma_lines_of_pieces(s@);
        lemma_split_nonempty(s@, '\n');
    }
    assert(pieces@.len() == p.len());
    let last = pieces.len() - 1;
    let mut r: Vec<&'a str> = Vec::new();
    let mut k: usize = 0;
    while k < last
        invariant
            last == pieces.len() - 1,
            pieces@.map_values(|x: &str| x@) == p,
            k <= last,
            r@.map_values(|x: &str| x@) == Seq::new(k as nat, |j: int| strip_cr(p[j])),
        decreases last - k,
    {
        let piece = pieces[k];
        assert(piece@ == p[k as int]);
        let n = piece.unicode_len();
        let line = if n > 0 && piece.get_char(n - 1) == '\r' {
            let t = piece.substring_char(0, n - 1);
            assert(t@ =~= strip_cr(p[k as int]));
            t
        } else {
            piece
        };
        let ghost old_r = r@.map_values(|x: &str| x@);
        r.push(line);
        assert(r@.map_values(|x: &str| x@) =~= old_r.push(line@));
        assert(r@.map_values(|x: &str| x@) =~= Seq::new((k + 1) as nat, |j: int| strip_cr(p[j])));
        k = k + 1;
    }
    let tail = pieces[last];
    assert(tail@ == p.last());
    if tail.unicode_len() > 0 {
        let ghost old_r = r@.map_values(|x: &str| x@);
        r.push(tail);
        assert(r@.map_values(|x: &str| x@) =~= old_r.push(tail@));
    }
    assert(r@.map_values(|x: &str| x@) =~= lines_of_pieces(p));
    r
}

} // verus!

verus! {

/// Unicode's `White_Space` property, the characters that `char::is_whitespace`
/// accepts and that `str::trim` and `str::trim_end` remove.
pub open spec fn is_white_space(c: char) -> bool {
    let n = c as int;
    ||| 0x09 <= n <= 0x0D
    ||| n == 0x20
    ||| n == 0x85
    ||| n == 0xA0
    ||| n == 0x1680
    ||| 0x2000 <= n <= 0x200A
    ||| n == 0x2028
    ||| n == 0x2029
    ||| n == 0x202F
    ||| n == 0x205F
    ||| n == 0x3000
}

/// The text without its trailing white space.
pub open spec fn trimmed_end(s: Seq<char>) -> Seq<char>
    decreases s.len(),
{
    if s.len() > 0 && is_white_space(s.last()) {
        trimmed_end(s.drop_last())
    } else {
        s
    }
}

/// The text without its leading white space.
pub open spec fn trimmed_start(s: Seq<char>) -> Seq<char>
    decreases s.len(),
{
    if s.len() > 0 && is_white_space(s[0]) {
        trimmed_start(s.drop_first())
    } else {
        s
    }
}

/// The text without its leading and trailing white space.
pub open spec fn trimmed(s: Seq<char>) -> Seq<char> {
    trimmed_start(trimmed_end(s))
}

/// `str::trim`: the text without leading and trailing white space, as its
/// documentation states (white space by Unicode's `White_Space`).
#[verifier::external_body]
pub(crate) fn trim_str<'a>(s: &'a str) -> (r: &'a str)
    ensures
        r@ == trimmed(s@),
{
    s.trim()
}

/// `str::trim_end`: the text without trailing white space, as its
/// documentation states (white space by Unicode's `White_Space`).
#[verifier::external_body]
pub(crate) fn trim_end_str<'a>(s: &'a str) -> (r: &'a str)
    ensures
        r@ == trimmed_end(s@),
{
    s.trim_end()
}

/// `String::from_utf8`: the text that the bytes encode, when they are UTF-8,
/// as its documentation states.
#[verifier::external_body]
pub(crate) fn string_from_utf8(bytes: Vec<u8>) -> (r: Option<String>)
    ensures
        r is Some <==> vstd::utf8::valid_utf8(bytes@),
        r matches Some(s) ==> s@ == vstd::utf8::decode_utf8(bytes@),
{
    String::from_utf8(bytes).ok()
}

} // verus!

verus! {

/// What `str::parse::<usize>` gives: an optional `+`, then one or more
/// decimal digits whose value fits in a `usize`.
pub open spec fn parse_usize_spec(s: Seq<char>) -> Option<usize> {
    let d = if s.len() > 0 && s[0] == '+' {
        s.drop_first()
    } else {
        s
    };
    if d.len() == 0 || !all_digits(d) || digits_value(d) > usize::MAX {
        None
    } else {
        Some(digits_value(d) as usize)
    }
}

/// Parses a decimal `usize` the way `str::parse::<usize>` does.
pub fn parse_usize(s: &str) -> (r: Option<usize>)
    ensures
        r == parse_usize_spec(s@),
{
    let c = str_to_chars(s);
    let start: usize = if c.len() > 0 && c[0] == '+' {
        1
    } else {
        0
    };
    let ghost d = if s@.len() > 0 && s@[0] == '+' {
        s@.drop_first()
    } else {
        s@
    };
    assert(d =~= c@.skip(start as int));
    if c.len() == start {
        return None;
    }
    let max: u128 = usize::MAX as u128;
    let mut acc: u128 = 0;
    let mut i = start;
    while i < c.len()
        invariant
            start <= i <= c.len(),
            c@ == s@,
            max == usize::MAX,
            d == c@.skip(start as int),
            d == (if s@.len() > 0 && s@[0] == '+' {
                s@.drop_first()
            } else {
                s@
            }),
            d.len() > 0,
            all_digits(d.take(i - start)),
            acc == digits_value(d.take(i - start)),
            acc <= usize::MAX,
        decreases c.len() - i,
    {
        let ch = c[i];
        if !('0' <= ch && ch <= '9') {
            assert(!all_digits(d)) by {
                assert(d[i - start] == ch);
            }
            return None;
        }
        let dv = (ch as u32 - '0' as u32) as u128;
        assert(d.take(i - start + 1).drop_last() =~= d.take(i - start));
        assert(d.take(i - start + 1).last() == ch);
        acc = acc * 10 + dv;
        i = i + 1;
        assert(all_digits(d.take(i - start))) by {
            assert forall|k: int| 0 <= k < d.take(i - start).len() implies is_digit(#[trigger] d.take(i - start)[k]) by {
                if k < i - start - 1 {
                    assert(d.take(i - start)[k] == d.take(i - start - 1)[k]);
                }
            }
        }
        if acc > max {
            proof {
                if all_digits(d) {
                    lemma_digits_value_prefix(d, i - start);
                }
            }
            return None;
        }
    }
    assert(d.take(i - start) =~= d);
    Some(acc as usize)
}

} // verus!
