//! Text templates whose `{{name}}` placeholders are replaced by values.

use vstd::prelude::*;
use crate::text::{contains_seq, extend_str, has_prefix, occurs_at, replace_chars, replace_spec, seq_to_string, str_to_chars};

verus! {

/// The placeholder that stands for `name`: `{{name}}`.
pub open spec fn placeholder(name: Seq<char>) -> Seq<char> {
    seq!['{', '{'] + name + seq!['}', '}']
}

/// A text with placeholders.
pub struct Template {
    cont: String,
}

impl Template {
    /// The current text.
    pub closed spec fn text(&self) -> Seq<char> {
        self.cont@
    }

    /// A template holding `cont`.
    pub fn new(cont: String) -> (r: Template)
        ensures
            r.text() == cont@,
    {
        Template { cont }
    }

    /// Replaces every `{{name}}` by `val`.
    pub fn assign(&mut self, name: &str, val: &str) -> (r: &mut Self)
        ensures
            r.text() == replace_spec(old(self).text(), placeholder(name@), val@),
            *final(self) == *final(r),
    {
        let mut pat: Vec<char> = Vec::new();
        pat.push('{');
        pat.push('{');
        extend_str(&mut pat, name);
        pat.push('}');
        pat.push('}');
        assert(pat@ =~= placeholder(name@));
        let s = str_to_chars(self.cont.as_str());
        let rep = str_to_chars(val);
        let out = replace_chars(&s, &pat, &rep);
        self.cont = seq_to_string(&out);
        self
    }

    /// The text as it stands.
    pub fn render(&self) -> (r: String)
        ensures
            r@ == self.text(),
    {
        self.cont.as_str().to_owned()
    }
}

/// Assigning a value to a name whose placeholder does not occur leaves the
/// text as it is.
pub proof fn lemma_assign_absent(s: Seq<char>, name: Seq<char>, val: Seq<char>)
    requires
        !contains_seq(s, placeholder(name)),
    ensures
        replace_spec(s, placeholder(name), val) == s,
{
    lemma_replace_absent(s, placeholder(name), val);
}

/// Replacing a pattern that does not occur changes nothing.
pub proof fn lemma_replace_absent(s: Seq<char>, pat: Seq<char>, rep: Seq<char>)
    requires
        pat.len() > 0,
        !contains_seq(s, pat),
    ensures
        replace_spec(s, pat, rep) == s,
    decreases s.len(),
{
    if s.len() > 0 {
        if has_prefix(s, pat) {
            assert(occurs_at(s, pat, 0));
        }
        let rest = s.drop_first();
        assert(!contains_seq(rest, pat)) by {
            if contains_seq(rest, pat) {
                let i = choose|i: int| occurs_at(rest, pat, i);
                assert(s.subrange(i + 1, i + 1 + pat.len()) =~= rest.subrange(i, i + pat.len()));
                assert(occurs_at(s, pat, i + 1));
            }
        }
        lemma_replace_absent(rest, pat, rep);
        assert(s =~= seq![s[0]] + rest);
    }
}

} // verus!
