//! Drop-in overrides of systemd units (`<unit>.d/override.conf`), the paths
//! of unit files under a root filesystem, and the units that a unit names in
//! its `[Install]` section.

use vstd::prelude::*;
use crate::paths::{has_root, has_root_exec, join_path, path_join, relative_part, relative_path};
use crate::sorting::{chars_le, pair_le, copy_string_pairs, lemma_pair_le_total_ordering, sort_string_pairs};
use crate::paths::lemma_split_pieces_no_sep;
use crate::text::{lemma_join_split, extend_chars, extend_str, join_chars, join_spec, seq_to_string, split_spec, split_str, str_eq, str_to_chars};
use systemd_parser::errors::ParserError;
use systemd_parser::items::{DirectiveEntry, SystemdUnit};

verus! {

/// The directives of a section, in the order they were first set: each name
/// with its values.
pub type SectionModel = Seq<(Seq<char>, Seq<Seq<char>>)>;

/// The sections of an override, in the order they were first put: each name
/// with its directives.
pub type OverrideModel = Seq<(Seq<char>, SectionModel)>;

/// No two entries share a name.
pub open spec fn keys_distinct<V>(s: Seq<(Seq<char>, V)>) -> bool {
    forall|i: int, j: int|
        0 <= i < s.len() && 0 <= j < s.len() && i != j ==> (#[trigger] s[i]).0 != (#[trigger] s[j]).0
}

/// Some entry is named `k`.
pub open spec fn has_key<V>(s: Seq<(Seq<char>, V)>, k: Seq<char>) -> bool {
    exists|i: int| 0 <= i < s.len() && (#[trigger] s[i]).0 == k
}

/// The position of the entry named `k`.
pub open spec fn key_pos<V>(s: Seq<(Seq<char>, V)>, k: Seq<char>) -> int {
    choose|i: int| 0 <= i < s.len() && (#[trigger] s[i]).0 == k
}

/// The value of the entry named `k`.
pub open spec fn value_of<V>(s: Seq<(Seq<char>, V)>, k: Seq<char>) -> V {
    s[key_pos(s, k)].1
}

/// `s` with the entry named `k` holding `v`: replaced in place when there is
/// one, else added at the end.
pub open spec fn set_key<V>(s: Seq<(Seq<char>, V)>, k: Seq<char>, v: V) -> Seq<(Seq<char>, V)> {
    if has_key(s, k) {
        s.update(key_pos(s, k), (k, v))
    } else {
        s.push((k, v))
    }
}

/// With distinct keys, the position of a key is the one entry that holds it.
pub proof fn lemma_key_pos_unique<V>(s: Seq<(Seq<char>, V)>, k: Seq<char>, i: int)
    requires
        keys_distinct(s),
        0 <= i < s.len(),
        s[i].0 == k,
    ensures
        has_key(s, k),
        key_pos(s, k) == i,
{
    assert(has_key(s, k));
    let p = key_pos(s, k);
    assert(0 <= p < s.len() && s[p].0 == k);
}

/// Setting a key keeps the keys distinct, gives it the value, and leaves the other keys as they were.
pub proof fn lemma_set_key<V>(s: Seq<(Seq<char>, V)>, k: Seq<char>, v: V)
    requires
        keys_distinct(s),
    ensures
        keys_distinct(set_key(s, k, v)),
        has_key(set_key(s, k, v), k),
        value_of(set_key(s, k, v), k) == v,
        forall|j: Seq<char>| j != k ==> has_key(set_key(s, k, v), j) == has_key(s, j),
        forall|j: Seq<char>| j != k && has_key(s, j) ==> value_of(set_key(s, k, v), j) == value_of(s, j),
{
    let t = set_key(s, k, v);
    if has_key(s, k) {
        let p = key_pos(s, k);
        assert(0 <= p < s.len() && s[p].0 == k);
        assert forall|j: Seq<char>| j != k && has_key(s, j) implies value_of(t, j) == value_of(s, j)
            && has_key(t, j) by {
            let q = key_pos(s, j);
            assert(0 <= q < s.len() && s[q].0 == j);
            assert(t[q] == s[q]);
            lemma_key_pos_unique(t, j, q);
        }
        assert forall|j: Seq<char>| j != k && has_key(t, j) implies has_key(s, j) by {
            let q = key_pos(t, j);
            assert(t[q] == s[q]);
        }
        lemma_key_pos_unique(t, k, p);
    } else {
        assert forall|j: Seq<char>| j != k && has_key(s, j) implies value_of(t, j) == value_of(s, j)
            && has_key(t, j) by {
            let q = key_pos(s, j);
            assert(t[q] == s[q]);
            lemma_key_pos_unique(t, j, q);
        }
        assert forall|j: Seq<char>| j != k && has_key(t, j) implies has_key(s, j) by {
            let q = key_pos(t, j);
            assert(q < s.len());
            assert(t[q] == s[q]);
        }
        lemma_key_pos_unique(t, k, s.len() as int);
    }
}

/// A section after `unset_directive(name)`: the directive holds one empty value.
pub open spec fn section_unset(d: SectionModel, name: Seq<char>) -> SectionModel {
    set_key(d, name, seq![Seq::<char>::empty()])
}

/// A section after `push_directive(name, value)`: the value is added after
/// those the directive holds; a directive not set yet is first unset, so
/// that the value overrides whatever the unit sets.
pub open spec fn section_push(d: SectionModel, name: Seq<char>, value: Seq<char>) -> SectionModel {
    if has_key(d, name) {
        set_key(d, name, value_of(d, name).push(value))
    } else {
        set_key(d, name, seq![Seq::<char>::empty(), value])
    }
}

/// The lines of one directive, `name=value` for each value, joined by line breaks.
pub open spec fn directive_text(name: Seq<char>, values: Seq<Seq<char>>) -> Seq<char> {
    join_spec(values.map_values(|v: Seq<char>| name + seq!['='] + v), '\n')
}

/// The text of the directives, one after another.
pub open spec fn directives_text(d: SectionModel) -> Seq<char>
    decreases d.len(),
{
    if d.len() == 0 {
        Seq::empty()
    } else {
        directives_text(d.drop_last()) + directive_text(d.last().0, d.last().1)
    }
}

/// The text of a section's directives, ended by a line break unless empty.
pub open spec fn section_text(d: SectionModel) -> Seq<char> {
    let t = directives_text(d);
    if t.len() > 0 {
        t.push('\n')
    } else {
        t
    }
}

/// A section of an override file.
#[derive(Debug, Clone)]
pub struct SystemdUnitSection {
    directives: Vec<(String, Vec<String>)>,
}

impl View for SystemdUnitSection {
    type V = SectionModel;

    closed spec fn view(&self) -> SectionModel {
        self.directives@.map_values(
            |d: (String, Vec<String>)| (d.0@, d.1@.map_values(|v: String| v@)),
        )
    }
}

impl SystemdUnitSection {
    /// No two directives share a name.
    pub open spec fn wf(&self) -> bool {
        keys_distinct(self@)
    }

    /// A section without directives.
    pub fn new() -> (r: SystemdUnitSection)
        ensures
            r.wf(),
            r@ == SectionModel::empty(),
    {
        let r = SystemdUnitSection { directives: Vec::new() };
        assert(r@ =~= SectionModel::empty());
        r
    }

    /// Where the directive named `name` is.
    fn find(&self, name: &str) -> (r: Option<usize>)
        requires
            self.wf(),
        ensures
            match r {
                Some(i) => i < self@.len() && has_key(self@, name@) && key_pos(self@, name@) == i,
                None => !has_key(self@, name@),
            },
    {
        let mut i: usize = 0;
        while i < self.directives.len()
            invariant
                self.wf(),
                i <= self.directives.len(),
                forall|j: int| 0 <= j < i ==> (#[trigger] self@[j]).0 != name@,
            decreases self.directives.len() - i,
        {
            assert(self@[i as int].0 == self.directives@[i as int].0@);
            if str_eq(self.directives[i].0.as_str(), name) {
                proof {
                    lemma_key_pos_unique(self@, name@, i as int);
                }
                return Some(i);
            }
            i = i + 1;
        }
        None
    }

    /// The section has a directive named `directive_name`.
    fn has_directive(&self, directive_name: &str) -> (r: bool)
        requires
            self.wf(),
        ensures
            r == has_key(self@, directive_name@),
    {
        self.find(directive_name).is_some()
    }

    /// Adds `value` after the values of the directive, which is created when missing.
    fn insert_directive(&mut self, directive_name: &str, value: String)
        requires
            old(self).wf(),
        ensures
            final(self).wf(),
            final(self)@ == set_key(
                old(self)@,
                directive_name@,
                if has_key(old(self)@, directive_name@) {
                    value_of(old(self)@, directive_name@)
                } else {
                    Seq::empty()
                }.push(value@),
            ),
    {
        let ghost old_view = self@;
        match self.find(directive_name) {
            Some(i) => {
                let ghost old_dirs = self.directives@;
                assert(old_view[i as int].0 == directive_name@);
                self.directives[i].1.push(value);
                assert(self.directives@[i as int].1@.map_values(|v: String| v@) =~= old_view[i as int].1.push(value@));
                assert(self@ =~= old_view.update(
                    i as int,
                    (directive_name@, value_of(old_view, directive_name@).push(value@)),
                ));
            },
            None => {
                let mut values: Vec<String> = Vec::new();
                values.push(value);
                self.directives.push((directive_name.to_owned(), values));
                assert(self.directives@.last().1@.map_values(|v: String| v@) =~= Seq::<Seq<char>>::empty().push(value@));
                assert(self@ =~= old_view.push(
                    (directive_name@, Seq::<Seq<char>>::empty().push(value@)),
                ));
            },
        }
        proof {
            lemma_set_key(
                old_view,
                directive_name@,
                if has_key(old_view, directive_name@) {
                    value_of(old_view, directive_name@)
                } else {
                    Seq::empty()
                }.push(value@),
            );
        }
    }

    /// Sets the directive to a single empty value, which resets it.
    pub fn unset_directive(&mut self, directive_name: &str)
        requires
            old(self).wf(),
        ensures
            final(self).wf(),
            final(self)@ == section_unset(old(self)@, directive_name@),
    {
        let ghost old_view = self@;
        if let Some(i) = self.find(directive_name) {
            assert(old_view[i as int].0 == directive_name@);
            self.directives[i].1.clear();
            assert(self.directives@[i as int].1@.map_values(|v: String| v@) =~= Seq::<Seq<char>>::empty());
            assert(self@ =~= old_view.update(i as int, (directive_name@, Seq::<Seq<char>>::empty())));
            proof {
                lemma_set_key(old_view, directive_name@, Seq::<Seq<char>>::empty());
                lemma_key_pos_unique(self@, directive_name@, i as int);
            }
        }
        let ghost mid = self@;
        self.insert_directive(directive_name, String::new());
        proof {
            assert(Seq::<Seq<char>>::empty().push(Seq::<char>::empty()) =~= seq![Seq::<char>::empty()]);
            if has_key(old_view, directive_name@) {
                let p = key_pos(old_view, directive_name@);
                assert(mid =~= old_view.update(p, (directive_name@, Seq::<Seq<char>>::empty())));
                assert(self@ =~= old_view.update(p, (directive_name@, seq![Seq::<char>::empty()])));
            }
        }
    }

    /// Adds a value to the directive; a directive not set yet is unset first,
    /// so that the values override those of the unit.
    pub fn push_directive(&mut self, directive_name: &str, value: String)
        requires
            old(self).wf(),
        ensures
            final(self).wf(),
            final(self)@ == section_push(old(self)@, directive_name@, value@),
    {
        let ghost old_view = self@;
        if !self.has_directive(directive_name) {
            self.unset_directive(directive_name);
            proof {
                lemma_set_key(old_view, directive_name@, seq![Seq::<char>::empty()]);
            }
        }
        let ghost mid = self@;
        self.insert_directive(directive_name, value);
        proof {
            if !has_key(old_view, directive_name@) {
                assert(seq![Seq::<char>::empty()].push(value@) =~= seq![Seq::<char>::empty(), value@]);
                assert(mid == old_view.push((directive_name@, seq![Seq::<char>::empty()])));
                let n = old_view.len() as int;
                lemma_key_pos_unique(mid, directive_name@, n);
                assert(self@ =~= old_view.push((directive_name@, seq![Seq::<char>::empty(), value@])));
            }
        }
    }

    /// The text of the section's directives.
    pub fn serialize(&self) -> (r: String)
        ensures
            r@ == section_text(self@),
    {
        let mut out: Vec<char> = Vec::new();
        let mut i: usize = 0;
        assert(self@.take(0) =~= SectionModel::empty());
        while i < self.directives.len()
            invariant
                i <= self.directives.len(),
                out@ == directives_text(self@.take(i as int)),
            decreases self.directives.len() - i,
        {
            let name = self.directives[i].0.as_str();
            let values = &self.directives[i].1;
            let ghost vs = values@.map_values(|v: String| v@);
            let mut lines: Vec<Vec<char>> = Vec::new();
            let mut k: usize = 0;
            while k < values.len()
                invariant
                    k <= values.len(),
                    vs == values@.map_values(|v: String| v@),
                    lines@.map_values(|l: Vec<char>| l@) == vs.take(k as int).map_values(
                        |v: Seq<char>| name@ + seq!['='] + v,
                    ),
                decreases values.len() - k,
            {
                let mut line: Vec<char> = Vec::new();
                extend_str(&mut line, name);
                line.push('=');
                extend_str(&mut line, values[k].as_str());
                assert(line@ =~= name@ + seq!['='] + vs[k as int]);
                let ghost old_lines = lines@.map_values(|l: Vec<char>| l@);
                lines.push(line);
                assert(lines@.map_values(|l: Vec<char>| l@) =~= old_lines.push(line@));
                assert(vs.take(k + 1).map_values(|v: Seq<char>| name@ + seq!['='] + v) =~= vs.take(
                    k as int,
                ).map_values(|v: Seq<char>| name@ + seq!['='] + v).push(name@ + seq!['='] + vs[k as int]));
                k = k + 1;
            }
            assert(vs.take(k as int) =~= vs);
            let joined = join_chars(&lines, '\n');
            extend_chars(&mut out, &joined);
            assert(self@[i as int] == (name@, vs));
            assert(self@.take(i + 1).drop_last() =~= self@.take(i as int));
            i = i + 1;
        }
        assert(self@.take(i as int) =~= self@);
        if out.len() > 0 {
            out.push('\n');
        }
        seq_to_string(&out)
    }
}

/// An override after `put_section(name)`: a section that is missing is added
/// empty; one that is there stays as it is.
pub open spec fn override_put(o: OverrideModel, name: Seq<char>) -> OverrideModel {
    if has_key(o, name) {
        o
    } else {
        o.push((name, SectionModel::empty()))
    }
}

/// The directives of the section named `name`, none if it is missing.
pub open spec fn section_of(o: OverrideModel, name: Seq<char>) -> SectionModel {
    if has_key(o, name) {
        value_of(o, name)
    } else {
        SectionModel::empty()
    }
}

/// An override after `push_directive(section, name, value)`.
pub open spec fn override_push(o: OverrideModel, section: Seq<char>, name: Seq<char>, value: Seq<char>) -> OverrideModel {
    set_key(o, section, section_push(section_of(o, section), name, value))
}

/// An override after `unset_directive(section, name)`.
pub open spec fn override_unset(o: OverrideModel, section: Seq<char>, name: Seq<char>) -> OverrideModel {
    set_key(o, section, section_unset(section_of(o, section), name))
}

/// The text of sections given by name and text: a `[name]` line, then the text.
pub open spec fn sections_text(ps: Seq<(Seq<char>, Seq<char>)>) -> Seq<char>
    decreases ps.len(),
{
    if ps.len() == 0 {
        Seq::empty()
    } else {
        sections_text(ps.drop_last()) + seq!['['] + ps.last().0 + seq![']', '\n'] + ps.last().1
    }
}

/// The text of an override file: its sections in ascending order of name.
pub open spec fn override_text(o: OverrideModel) -> Seq<char> {
    sections_text(
        o.map_values(|p: (Seq<char>, SectionModel)| (p.0, section_text(p.1))).sort_by(
            |a: (Seq<char>, Seq<char>), b: (Seq<char>, Seq<char>)| pair_le(a, b),
        ),
    )
}

/// The contents of a drop-in `override.conf` for a unit.
#[derive(Debug, Clone)]
pub struct SystemdUnitOverride {
    sections: Vec<(String, SystemdUnitSection)>,
}

impl View for SystemdUnitOverride {
    type V = OverrideModel;

    closed spec fn view(&self) -> OverrideModel {
        self.sections@.map_values(|s: (String, SystemdUnitSection)| (s.0@, s.1@))
    }
}

impl SystemdUnitOverride {
    /// No two sections share a name, and each section is well formed.
    pub closed spec fn wf(&self) -> bool {
        &&& keys_distinct(self@)
        &&& forall|i: int| 0 <= i < self.sections.len() ==> (#[trigger] self.sections@[i]).1.wf()
    }

    /// An override without sections.
    pub fn new() -> (r: SystemdUnitOverride)
        ensures
            r.wf(),
            r@ == OverrideModel::empty(),
    {
        let r = SystemdUnitOverride { sections: Vec::new() };
        assert(r@ =~= OverrideModel::empty());
        r
    }

    /// Where the section named `name` is.
    fn find(&self, name: &str) -> (r: Option<usize>)
        requires
            self.wf(),
        ensures
            match r {
                Some(i) => i < self@.len() && has_key(self@, name@) && key_pos(self@, name@) == i,
                None => !has_key(self@, name@),
            },
    {
        let mut i: usize = 0;
        while i < self.sections.len()
            invariant
                self.wf(),
                i <= self.sections.len(),
                forall|j: int| 0 <= j < i ==> (#[trigger] self@[j]).0 != name@,
            decreases self.sections.len() - i,
        {
            assert(self@[i as int].0 == self.sections@[i as int].0@);
            if str_eq(self.sections[i].0.as_str(), name) {
                proof {
                    lemma_key_pos_unique(self@, name@, i as int);
                }
                return Some(i);
            }
            i = i + 1;
        }
        None
    }

    /// Adds an empty section named `section_name` unless there is one.
    pub fn put_section(&mut self, section_name: String) -> (r: &mut Self)
        requires
            old(self).wf(),
        ensures
            r.wf(),
            r@ == override_put(old(self)@, section_name@),
            *final(self) == *final(r),
    {
        self.put_section_inner(section_name);
        self
    }

    fn put_section_inner(&mut self, section_name: String)
        requires
            old(self).wf(),
        ensures
            final(self).wf(),
            final(self)@ == override_put(old(self)@, section_name@),
    {
        let ghost old_view = self@;
        if self.find(section_name.as_str()).is_none() {
            self.sections.push((section_name, SystemdUnitSection::new()));
            assert(self@ =~= old_view.push((section_name@, SectionModel::empty())));
            proof {
                lemma_set_key(old_view, section_name@, SectionModel::empty());
            }
        }
    }

    /// The position of the section named `section_name`, added empty first when missing.
    fn section_pos(&mut self, section_name: &str) -> (r: usize)
        requires
            old(self).wf(),
        ensures
            final(self).wf(),
            final(self)@ == override_put(old(self)@, section_name@),
            r < final(self)@.len(),
            has_key(final(self)@, section_name@),
            key_pos(final(self)@, section_name@) == r,
            final(self)@[r as int].1 == section_of(old(self)@, section_name@),
    {
        let ghost old_view = self@;
        match self.find(section_name) {
            Some(i) => i,
            None => {
                self.put_section_inner(section_name.to_owned());
                let i = self.sections.len() - 1;
                proof {
                    lemma_key_pos_unique(self@, section_name@, i as int);
                }
                i
            },
        }
    }

    /// Adds a value to a directive of a section, as `SystemdUnitSection::push_directive`
    /// does; a missing section is added first.
    pub fn push_directive(&mut self, section_name: &str, directive_name: &str, value: String) -> (r:
        &mut Self)
        requires
            old(self).wf(),
        ensures
            r.wf(),
            r@ == override_push(old(self)@, section_name@, directive_name@, value@),
            *final(self) == *final(r),
    {
        let ghost old_view = self@;
        let i = self.section_pos(section_name);
        let ghost mid = self@;
        let ghost mid_secs = self.sections@;
        assert(mid_secs[i as int].1.wf());
        self.sections[i].1.push_directive(directive_name, value);
        proof {
            assert(self@ =~= mid.update(
                i as int,
                (section_name@, section_push(section_of(old_view, section_name@), directive_name@, value@)),
            ));
            lemma_set_key(mid, section_name@, section_push(section_of(old_view, section_name@), directive_name@, value@));
            if has_key(old_view, section_name@) {
                assert(mid == old_view);
            } else {
                let n = old_view.len() as int;
                assert(mid == old_view.push((section_name@, SectionModel::empty())));
                assert(self@ =~= old_view.push(
                    (section_name@, section_push(section_of(old_view, section_name@), directive_name@, value@)),
                ));
            }
            assert forall|j: int| 0 <= j < self.sections.len() implies (#[trigger] self.sections@[j]).1.wf() by {
                if j != i {
                    assert(self.sections@[j] == mid_secs[j]);
                }
            }
        }
        self
    }

    /// Resets a directive of a section, as `SystemdUnitSection::unset_directive`
    /// does; a missing section is added first.
    pub fn unset_directive(&mut self, section_name: &str, directive_name: &str) -> (r: &mut Self)
        requires
            old(self).wf(),
        ensures
            r.wf(),
            r@ == override_unset(old(self)@, section_name@, directive_name@),
            *final(self) == *final(r),
    {
        let ghost old_view = self@;
        let i = self.section_pos(section_name);
        let ghost mid = self@;
        let ghost mid_secs = self.sections@;
        assert(mid_secs[i as int].1.wf());
        self.sections[i].1.unset_directive(directive_name);
        proof {
            assert(self@ =~= mid.update(
                i as int,
                (section_name@, section_unset(section_of(old_view, section_name@), directive_name@)),
            ));
            lemma_set_key(mid, section_name@, section_unset(section_of(old_view, section_name@), directive_name@));
            if has_key(old_view, section_name@) {
                assert(mid == old_view);
            } else {
                assert(mid == old_view.push((section_name@, SectionModel::empty())));
                assert(self@ =~= old_view.push(
                    (section_name@, section_unset(section_of(old_view, section_name@), directive_name@)),
                ));
            }
            assert forall|j: int| 0 <= j < self.sections.len() implies (#[trigger] self.sections@[j]).1.wf() by {
                if j != i {
                    assert(self.sections@[j] == mid_secs[j]);
                }
            }
        }
        self
    }
}

impl SystemdUnitOverride {
    /// The text of the override file.
    pub fn serialize(&self) -> (r: String)
        requires
            self.wf(),
        ensures
            r@ == override_text(self@),
    {
        let ghost pl = |a: (Seq<char>, Seq<char>), b: (Seq<char>, Seq<char>)| pair_le(a, b);
        let ghost texts = self@.map_values(|p: (Seq<char>, SectionModel)| (p.0, section_text(p.1)));
        let mut pairs: Vec<(String, String)> = Vec::new();
        let mut i: usize = 0;
        while i < self.sections.len()
            invariant
                i <= self.sections.len(),
                texts == self@.map_values(|p: (Seq<char>, SectionModel)| (p.0, section_text(p.1))),
                pairs@.map_values(|p: (String, String)| (p.0@, p.1@)) == texts.take(i as int),
            decreases self.sections.len() - i,
        {
            let name = self.sections[i].0.as_str().to_owned();
            let text = self.sections[i].1.serialize();
            let ghost old_pairs = pairs@.map_values(|p: (String, String)| (p.0@, p.1@));
            pairs.push((name, text));
            assert(pairs@.map_values(|p: (String, String)| (p.0@, p.1@)) =~= old_pairs.push((name@, text@)));
            assert(texts.take(i + 1) =~= texts.take(i as int).push(texts[i as int]));
            i = i + 1;
        }
        assert(texts.take(i as int) =~= texts);
        let sorted = sort_string_pairs(pairs);
        let ghost ss = sorted@.map_values(|p: (String, String)| (p.0@, p.1@));
        proof {
            lemma_pair_le_total_ordering();
            texts.lemma_sort_by_ensures(pl);
            vstd::seq_lib::lemma_sorted_unique(ss, texts.sort_by(pl), pl);
        }
        let mut out: Vec<char> = Vec::new();
        let mut k: usize = 0;
        assert(ss.take(0) =~= Seq::<(Seq<char>, Seq<char>)>::empty());
        while k < sorted.len()
            invariant
                k <= sorted.len(),
                ss == sorted@.map_values(|p: (String, String)| (p.0@, p.1@)),
                out@ == sections_text(ss.take(k as int)),
            decreases sorted.len() - k,
        {
            out.push('[');
            extend_str(&mut out, sorted[k].0.as_str());
            out.push(']');
            out.push('\n');
            extend_str(&mut out, sorted[k].1.as_str());
            assert(ss.take(k + 1).drop_last() =~= ss.take(k as int));
            assert(ss.take(k + 1).last() == ss[k as int]);
            assert(out@ =~= sections_text(ss.take(k + 1)));
            k = k + 1;
        }
        assert(ss.take(k as int) =~= ss);
        seq_to_string(&out)
    }
}

impl Default for SystemdUnitOverride {
    fn default() -> (r: SystemdUnitOverride)
        ensures
            r.wf(),
            r@ == OverrideModel::empty(),
    {
        SystemdUnitOverride::new()
    }
}

/// Putting a section twice is the same as putting it once.
pub proof fn lemma_put_section_idempotent(o: OverrideModel, name: Seq<char>)
    ensures
        override_put(override_put(o, name), name) == override_put(o, name),
{
    if !has_key(o, name) {
        let t = o.push((name, SectionModel::empty()));
        assert(t[o.len() as int].0 == name);
        assert(has_key(t, name));
    }
}

/// After `unset_directive`, the directive holds exactly one empty value,
/// whatever was pushed to it before, and the other sections are unchanged.
pub proof fn lemma_unset_resets(o: OverrideModel, section: Seq<char>, name: Seq<char>)
    requires
        keys_distinct(o),
        keys_distinct(section_of(o, section)),
    ensures
        value_of(section_of(override_unset(o, section, name), section), name) == seq![
            Seq::<char>::empty(),
        ],
        forall|other: Seq<char>|
            other != section ==> section_of(override_unset(o, section, name), other) == section_of(
                o,
                other,
            ),
{
    let d = section_unset(section_of(o, section), name);
    lemma_set_key(section_of(o, section), name, seq![Seq::<char>::empty()]);
    lemma_set_key(o, section, d);
}

/// `push_directive` adds the value after those the directive already holds;
/// on a directive not set yet it first writes an empty value, which resets
/// what the unit itself sets.
pub proof fn lemma_push_appends(o: OverrideModel, section: Seq<char>, name: Seq<char>, value: Seq<char>)
    requires
        keys_distinct(o),
        keys_distinct(section_of(o, section)),
    ensures
        value_of(section_of(override_push(o, section, name, value), section), name) == if has_key(
            section_of(o, section),
            name,
        ) {
            value_of(section_of(o, section), name).push(value)
        } else {
            seq![Seq::<char>::empty(), value]
        },
{
    let d0 = section_of(o, section);
    if has_key(d0, name) {
        lemma_set_key(d0, name, value_of(d0, name).push(value));
    } else {
        lemma_set_key(d0, name, seq![Seq::<char>::empty(), value]);
    }
    lemma_set_key(o, section, section_push(d0, name, value));
}

/// The text of an override depends on its sections and not on the order in
/// which they were put: sections are written in ascending order of name.
pub proof fn lemma_override_text_order_free(a: OverrideModel, b: OverrideModel)
    requires
        a.to_multiset() == b.to_multiset(),
    ensures
        override_text(a) == override_text(b),
{
    let f = |p: (Seq<char>, SectionModel)| (p.0, section_text(p.1));
    let pl = |x: (Seq<char>, Seq<char>), y: (Seq<char>, Seq<char>)| pair_le(x, y);
    let ta = a.map_values(f);
    let tb = b.map_values(f);
    lemma_map_multiset(a, b, f);
    lemma_pair_le_total_ordering();
    ta.lemma_sort_by_ensures(pl);
    tb.lemma_sort_by_ensures(pl);
    vstd::seq_lib::lemma_sorted_unique(ta.sort_by(pl), tb.sort_by(pl), pl);
}

/// Mapping two sequences with the same elements gives sequences with the same elements.
pub proof fn lemma_map_multiset<A, B>(a: Seq<A>, b: Seq<A>, f: spec_fn(A) -> B)
    requires
        a.to_multiset() == b.to_multiset(),
    ensures
        a.map_values(f).to_multiset() == b.map_values(f).to_multiset(),
    decreases a.len(),
{
    broadcast use vstd::seq_lib::group_to_multiset_ensures;

    if a.len() == 0 {
        assert(a.to_multiset().len() == 0);
        assert(b.to_multiset().len() == 0);
        assert(b.len() == 0);
        assert(a.map_values(f) =~= Seq::<B>::empty());
        assert(b.map_values(f) =~= Seq::<B>::empty());
    } else {
        let x = a.last();
        let a2 = a.drop_last();
        assert(a =~= a2.push(x));
        assert(a.contains(x));
        assert(b.to_multiset().count(x) > 0);
        assert(b.contains(x));
        let j = choose|j: int| 0 <= j < b.len() && b[j] == x;
        let b2 = b.remove(j);
        assert(a2.to_multiset() =~= b2.to_multiset());
        lemma_map_multiset(a2, b2, f);
        let fa = a.map_values(f);
        let fb = b.map_values(f);
        assert(fa =~= a2.map_values(f).push(f(x)));
        assert(b2.map_values(f) =~= fb.remove(j));
        assert(fb[j] == f(x));
        assert(fb.to_multiset() =~= fb.remove(j).to_multiset().insert(f(x))) by {
            assert(fb.contains(f(x)));
        }
    }
}

// ---------------------------------------------------------------------------
// Unit files under a root filesystem.
// ---------------------------------------------------------------------------

/// The directory of local unit files, relative to the root filesystem.
pub open spec fn local_unit_dir() -> Seq<char> {
    "etc/systemd/system/"@
}

/// Where the local unit file `name` is under `rootfs`.
pub open spec fn local_unit_path(rootfs: Seq<char>, name: Seq<char>) -> Seq<char> {
    path_join(path_join(rootfs, local_unit_dir()), name)
}

/// Where the local unit file `service_name` is under `rootfs_path`.
pub fn get_local_unit_path(rootfs_path: &str, service_name: &str) -> (r: String)
    ensures
        r@ == local_unit_path(rootfs_path@, service_name@),
{
    let dir = join_path(rootfs_path, "etc/systemd/system/");
    join_path(dir.as_str(), service_name)
}

/// The name of the drop-in override of a unit, relative to the local unit directory.
pub open spec fn override_conf_name(service_name: Seq<char>) -> Seq<char> {
    service_name + ".d/override.conf"@
}

/// Where the drop-in override of `service_name` is under `rootfs_path`.
pub fn get_override_conf_path(rootfs_path: &str, service_name: &str) -> (r: String)
    ensures
        r@ == local_unit_path(rootfs_path@, override_conf_name(service_name@)),
{
    let mut name: Vec<char> = str_to_chars(service_name);
    extend_str(&mut name, ".d/override.conf");
    let name = seq_to_string(&name);
    get_local_unit_path(rootfs_path, name.as_str())
}

/// The directories searched for an installed unit file, in order.
pub open spec fn unit_dirs() -> Seq<Seq<char>> {
    seq![
        "etc/systemd/system/"@,
        "usr/lib/systemd/system/"@,
        "lib/systemd/system/"@,
        "run/systemd/system/"@,
    ]
}

/// The paths where the unit file `service_name` may be under `rootfs_path`,
/// in the order they are searched; the first that exists is the unit file.
pub fn unit_path_candidates(rootfs_path: &str, service_name: &str) -> (r: Vec<String>)
    ensures
        r@.len() == unit_dirs().len(),
        forall|i: int|
            0 <= i < r@.len() ==> (#[trigger] r@[i])@ == path_join(
                path_join(rootfs_path@, unit_dirs()[i]),
                service_name@,
            ),
{
    let dirs = ["etc/systemd/system/", "usr/lib/systemd/system/", "lib/systemd/system/", "run/systemd/system/"];
    let mut r: Vec<String> = Vec::new();
    let mut i: usize = 0;
    while i < 4
        invariant
            i <= 4,
            dirs@ == seq![
                "etc/systemd/system/",
                "usr/lib/systemd/system/",
                "lib/systemd/system/",
                "run/systemd/system/",
            ],
            r@.len() == i,
            forall|j: int|
                0 <= j < i ==> (#[trigger] r@[j])@ == path_join(
                    path_join(rootfs_path@, unit_dirs()[j]),
                    service_name@,
                ),
        decreases 4 - i,
    {
        let dir = join_path(rootfs_path, dirs[i]);
        r.push(join_path(dir.as_str(), service_name));
        i = i + 1;
    }
    r
}

/// Where a symlink to a unit file leads, seen from the host: an absolute
/// target is taken inside `rootfs`, a relative one as it is.
pub open spec fn symlink_target_in(rootfs: Seq<char>, target: Seq<char>) -> Seq<char> {
    if has_root(target) {
        path_join(rootfs, relative_part(target))
    } else {
        target
    }
}

/// Where a symlink whose target is `target` leads inside `rootfs_path`.
pub fn resolve_symlink_target(rootfs_path: &str, target: &str) -> (r: String)
    ensures
        r@ == symlink_target_in(rootfs_path@, target@),
{
    if has_root_exec(target) {
        let rel = relative_path(target);
        join_path(rootfs_path, rel.as_str())
    } else {
        target.to_owned()
    }
}

// ---------------------------------------------------------------------------
// Units named in the `[Install]` section.
// ---------------------------------------------------------------------------

#[verifier::external_type_specification]
#[verifier::external_body]
pub struct ExSystemdUnit(SystemdUnit);

#[verifier::external_type_specification]
#[verifier::external_body]
pub struct ExParserError(ParserError);

/// The directives of a parsed unit file, by name: for each name, the section
/// and the value of each directive with that name, in file order.
pub uninterp spec fn unit_directives(unit: SystemdUnit) -> Map<Seq<char>, Seq<(Seq<char>, Option<Seq<char>>)>>;

/// The directives that `systemd_parser::parse_string` reads from a text, as
/// `unit_directives` gives them, or `None` when it refuses the text.
pub uninterp spec fn parsed_unit(text: Seq<char>) -> Option<Map<Seq<char>, Seq<(Seq<char>, Option<Seq<char>>)>>>;

/// A directive handed out by the parser, as its section and value.
pub open spec fn directive_view(d: (String, Option<String>)) -> (Seq<char>, Option<Seq<char>>) {
    (
        d.0@,
        match d.1 {
            Some(v) => Some(v@),
            None => None,
        },
    )
}

/// `systemd_parser::parse_string`: parses the text of a unit file. The
/// contract claims only that the outcome is a function of the text; which
/// texts it accepts and what it reads from them is left unsaid.
#[verifier::external_body]
fn parse_unit_file(text: &str) -> (r: Result<SystemdUnit, ParserError>)
    ensures
        match r {
            Ok(u) => parsed_unit(text@) == Some(unit_directives(u)),
            Err(_) => parsed_unit(text@) is None,
        },
{
    systemd_parser::parse_string(text)
}

/// `SystemdUnit::lookup_by_key`: the directives named `key`, each as its
/// section and value, in file order; `None` when the unit has none.
#[verifier::external_body]
fn lookup_directives(unit: &SystemdUnit, key: &str) -> (r: Option<Vec<(String, Option<String>)>>)
    ensures
        match r {
            None => !unit_directives(*unit).dom().contains(key@),
            Some(v) => unit_directives(*unit).dom().contains(key@) && v@.map_values(
                |d: (String, Option<String>)| directive_view(d),
            ) == unit_directives(*unit)[key@],
        },
{
    match unit.lookup_by_key(key) {
        None => None,
        Some(DirectiveEntry::Solo(d)) => Some(vec![(d.category().to_owned(), d.value().map(str::to_owned))]),
        Some(DirectiveEntry::Many(ds)) => Some(
            ds.iter().map(|d| (d.category().to_owned(), d.value().map(str::to_owned))).collect(),
        ),
    }
}

/// The words of a directive's value, split at each space; none without a value.
pub open spec fn value_words(v: Option<Seq<char>>) -> Seq<Seq<char>> {
    match v {
        Some(s) => split_spec(s, ' '),
        None => Seq::empty(),
    }
}

/// The words of the values of the directives, in order.
pub open spec fn values_words(ds: Seq<(Seq<char>, Option<Seq<char>>)>) -> Seq<Seq<char>>
    decreases ds.len(),
{
    if ds.len() == 0 {
        Seq::empty()
    } else {
        values_words(ds.drop_last()) + value_words(ds.last().1)
    }
}

/// The words of the directives named `key`, when they belong to `[Install]`.
pub open spec fn install_words(d: Map<Seq<char>, Seq<(Seq<char>, Option<Seq<char>>)>>, key: Seq<char>) -> Seq<Seq<char>> {
    if d.dom().contains(key) && d[key].len() > 0 && d[key][0].0 == "Install"@ {
        values_words(d[key])
    } else {
        Seq::empty()
    }
}

/// The units that come with a unit: those its `Alias=` and `Also=`
/// directives of `[Install]` name.
pub open spec fn company_unit_names_spec(d: Map<Seq<char>, Seq<(Seq<char>, Option<Seq<char>>)>>) -> Seq<Seq<char>> {
    install_words(d, "Alias"@) + install_words(d, "Also"@)
}

/// Why the units that come with a unit could not be found.
#[derive(Debug, Clone, Copy, PartialEq, Eq)]
pub enum SystemdUnitError {
    /// The unit file could not be parsed.
    InvalidUnitFile,
}

/// The words of the `[Install]` directives named `key` of a parsed unit.
fn install_words_of(unit: &SystemdUnit, key: &str) -> (r: Vec<String>)
    ensures
        r@.map_values(|w: String| w@) == install_words(unit_directives(*unit), key@),
{
    let mut r: Vec<String> = Vec::new();
    let ds = match lookup_directives(unit, key) {
        None => {
            assert(r@.map_values(|w: String| w@) =~= Seq::<Seq<char>>::empty());
            return r;
        },
        Some(ds) => ds,
    };
    let ghost dv = ds@.map_values(|d: (String, Option<String>)| directive_view(d));
    if ds.len() == 0 || !str_eq(ds[0].0.as_str(), "Install") {
        proof {
            if ds.len() > 0 {
                assert(dv[0] == directive_view(ds@[0]));
            }
        }
        assert(r@.map_values(|w: String| w@) =~= Seq::<Seq<char>>::empty());
        return r;
    }
    assert(dv[0] == directive_view(ds@[0]));
    let mut i: usize = 0;
    assert(dv.take(0) =~= Seq::<(Seq<char>, Option<Seq<char>>)>::empty());
    while i < ds.len()
        invariant
            i <= ds.len(),
            dv == ds@.map_values(|d: (String, Option<String>)| directive_view(d)),
            r@.map_values(|w: String| w@) == values_words(dv.take(i as int)),
        decreases ds.len() - i,
    {
        assert(dv[i as int] == directive_view(ds@[i as int]));
        let ghost before = r@.map_values(|w: String| w@);
        match &ds[i].1 {
            Some(v) => {
                let words = split_str(v.as_str(), ' ');
                let mut k: usize = 0;
                while k < words.len()
                    invariant
                        k <= words.len(),
                        words@.map_values(|x: &str| x@) == split_spec(v@, ' '),
                        r@.map_values(|w: String| w@) == before + split_spec(v@, ' ').take(k as int),
                    decreases words.len() - k,
                {
                    let ghost prev = r@.map_values(|w: String| w@);
                    r.push(words[k].to_owned());
                    assert(r@.map_values(|w: String| w@) =~= prev.push(words@[k as int]@));
                    assert(split_spec(v@, ' ').take(k + 1) =~= split_spec(v@, ' ').take(k as int).push(
                        words@[k as int]@,
                    ));
                    k = k + 1;
                }
                assert(split_spec(v@, ' ').take(k as int) =~= split_spec(v@, ' '));
            },
            None => {
                assert(r@.map_values(|w: String| w@) =~= before + Seq::<Seq<char>>::empty());
            },
        }
        assert(dv.take(i + 1).drop_last() =~= dv.take(i as int));
        assert(dv.take(i + 1).last() == dv[i as int]);
        i = i + 1;
    }
    assert(dv.take(i as int) =~= dv);
    r
}

/// The units that come with a parsed unit: the words of its `Alias=`
/// directives of `[Install]`, then those of its `Also=` directives.
pub fn company_unit_names_of(unit: &SystemdUnit) -> (r: Vec<String>)
    ensures
        r@.map_values(|w: String| w@) == company_unit_names_spec(unit_directives(*unit)),
{
    let mut r = install_words_of(unit, "Alias");
    let also = install_words_of(unit, "Also");
    let ghost first = r@.map_values(|w: String| w@);
    let mut k: usize = 0;
    while k < also.len()
        invariant
            k <= also.len(),
            r@.map_values(|w: String| w@) == first + also@.map_values(|w: String| w@).take(k as int),
        decreases also.len() - k,
    {
        let ghost prev = r@.map_values(|w: String| w@);
        r.push(also[k].as_str().to_owned());
        assert(r@.map_values(|w: String| w@) =~= prev.push(also@[k as int]@));
        assert(also@.map_values(|w: String| w@).take(k + 1) =~= also@.map_values(|w: String| w@).take(
            k as int,
        ).push(also@[k as int]@));
        k = k + 1;
    }
    assert(also@.map_values(|w: String| w@).take(k as int) =~= also@.map_values(|w: String| w@));
    r
}

/// The words of each directive's value, one sequence per directive.
pub open spec fn words_per_directive(ds: Seq<(Seq<char>, Option<Seq<char>>)>) -> Seq<Seq<Seq<char>>> {
    ds.map_values(|x: (Seq<char>, Option<Seq<char>>)| value_words(x.1))
}

/// The words of all the values, in order, are those of each value one after
/// the other.
proof fn lemma_values_words_flatten(ds: Seq<(Seq<char>, Option<Seq<char>>)>)
    ensures
        values_words(ds) == words_per_directive(ds).flatten(),
    decreases ds.len(),
{
    let m = words_per_directive(ds);
    m.lemma_flatten_and_flatten_alt_are_equivalent();
    if ds.len() > 0 {
        lemma_values_words_flatten(ds.drop_last());
        assert(m.drop_last() =~= words_per_directive(ds.drop_last()));
        words_per_directive(ds.drop_last()).lemma_flatten_and_flatten_alt_are_equivalent();
        assert(m.last() == value_words(ds.last().1));
    }
}

/// The words of a value hold no space, and joined again with single spaces
/// they give the value back.
pub proof fn lemma_value_words_rejoin(v: Seq<char>)
    ensures
        join_spec(value_words(Some(v)), ' ') == v,
        forall|j: int|
            0 <= j < value_words(Some(v)).len() ==> !(#[trigger] value_words(Some(v))[j]).contains(' '),
{
    lemma_join_split(v, ' ');
    lemma_split_pieces_no_sep(v, ' ');
}

/// The units that come with a unit are every word of every `Alias=` value,
/// then every word of every `Also=` value, the values in file order, when
/// these directives belong to `[Install]`: no word of any value is dropped.
pub proof fn lemma_company_units_all_words(d: Map<Seq<char>, Seq<(Seq<char>, Option<Seq<char>>)>>)
    requires
        d.dom().contains("Alias"@) && d["Alias"@].len() > 0 ==> d["Alias"@][0].0 == "Install"@,
        d.dom().contains("Also"@) && d["Also"@].len() > 0 ==> d["Also"@][0].0 == "Install"@,
    ensures
        company_unit_names_spec(d) == (if d.dom().contains("Alias"@) {
            words_per_directive(d["Alias"@]).flatten()
        } else {
            Seq::empty()
        }) + (if d.dom().contains("Also"@) {
            words_per_directive(d["Also"@]).flatten()
        } else {
            Seq::empty()
        }),
{
    if d.dom().contains("Alias"@) {
        lemma_values_words_flatten(d["Alias"@]);
        if d["Alias"@].len() == 0 {
            assert(words_per_directive(d["Alias"@]) =~= Seq::<Seq<Seq<char>>>::empty());
        }
    }
    if d.dom().contains("Also"@) {
        lemma_values_words_flatten(d["Also"@]);
        if d["Also"@].len() == 0 {
            assert(words_per_directive(d["Also"@]) =~= Seq::<Seq<Seq<char>>>::empty());
        }
    }
}

/// The units that come with the unit whose file holds `unit_text`.
pub fn company_unit_names(unit_text: &str) -> (r: Result<Vec<String>, SystemdUnitError>)
    ensures
        match parsed_unit(unit_text@) {
            None => r == Err::<Vec<String>, SystemdUnitError>(SystemdUnitError::InvalidUnitFile),
            Some(d) => (r matches Ok(v) && v@.map_values(|w: String| w@) == company_unit_names_spec(d)),
        },
{
    match parse_unit_file(unit_text) {
        Ok(unit) => Ok(company_unit_names_of(&unit)),
        Err(_) => Err(SystemdUnitError::InvalidUnitFile),
    }
}

/// Disables a unit of a root filesystem: it removes the unit's links and
/// those of the units that come with it.
#[derive(Debug, Clone)]
pub struct SystemdUnitDisabler {
    pub name: String,
    rootfs_path: String,
}

impl SystemdUnitDisabler {
    /// The root filesystem the unit belongs to.
    pub closed spec fn rootfs(&self) -> Seq<char> {
        self.rootfs_path@
    }

    /// The name of the unit.
    pub closed spec fn unit_name(&self) -> Seq<char> {
        self.name@
    }

    /// A disabler of the unit `service_name` of the root filesystem at `rootfs_path`.
    pub fn new(rootfs_path: &str, service_name: &str) -> (r: SystemdUnitDisabler)
        ensures
            r.unit_name() == service_name@,
            r.rootfs() == rootfs_path@,
    {
        SystemdUnitDisabler { name: service_name.to_owned(), rootfs_path: rootfs_path.to_owned() }
    }

    /// The root filesystem the unit belongs to.
    pub fn rootfs_path(&self) -> (r: &str)
        ensures
            r@ == self.rootfs(),
    {
        self.rootfs_path.as_str()
    }

    /// Where the local unit file is; masking makes it a link to `/dev/null`.
    pub fn get_local_unit_path(&self) -> (r: String)
        ensures
            r@ == local_unit_path(self.rootfs(), self.unit_name()),
    {
        get_local_unit_path(self.rootfs_path.as_str(), self.name.as_str())
    }

    /// Disablers of the units that come with this one, whose unit file holds
    /// `unit_text`, in the same root filesystem.
    pub fn company_units(&self, unit_text: &str) -> (r: Result<Vec<SystemdUnitDisabler>, SystemdUnitError>)
        ensures
            match parsed_unit(unit_text@) {
                None => r == Err::<Vec<SystemdUnitDisabler>, SystemdUnitError>(SystemdUnitError::InvalidUnitFile),
                Some(d) => (r matches Ok(v) && v@.len() == company_unit_names_spec(d).len() && forall|i: int|
                    0 <= i < v@.len() ==> (#[trigger] v@[i]).unit_name() == company_unit_names_spec(d)[i]
                        && v@[i].rootfs() == self.rootfs()),
            },
    {
        let names = match company_unit_names(unit_text) {
            Ok(n) => n,
            Err(e) => {
                return Err(e);
            },
        };
        let ghost nv = names@.map_values(|w: String| w@);
        let mut r: Vec<SystemdUnitDisabler> = Vec::new();
        let mut i: usize = 0;
        while i < names.len()
            invariant
                i <= names.len(),
                nv == names@.map_values(|w: String| w@),
                r@.len() == i,
                forall|j: int|
                    0 <= j < i ==> (#[trigger] r@[j]).unit_name() == nv[j] && r@[j].rootfs() == self.rootfs(),
            decreases names.len() - i,
        {
            r.push(SystemdUnitDisabler::new(self.rootfs_path.as_str(), names[i].as_str()));
            i = i + 1;
        }
        Ok(r)
    }
}

/// The override that resets `directive` of `section`, for the unit whose file
/// holds `unit_text`, when that unit sets the directive; `None` when it does not.
pub fn option_disabling_override(unit_text: &str, section: &str, directive: &str) -> (r: Result<
    Option<SystemdUnitOverride>,
    SystemdUnitError,
>)
    ensures
        match parsed_unit(unit_text@) {
            None => (r matches Err(e) && e == SystemdUnitError::InvalidUnitFile),
            Some(d) => if d.dom().contains(directive@) {
                (r matches Ok(Some(o)) && o.wf() && o@ == override_unset(
                    OverrideModel::empty(),
                    section@,
                    directive@,
                ))
            } else {
                (r matches Ok(None))
            },
        },
{
    let unit = match parse_unit_file(unit_text) {
        Ok(u) => u,
        Err(_) => {
            return Err(SystemdUnitError::InvalidUnitFile);
        },
    };
    if lookup_directives(&unit, directive).is_none() {
        return Ok(None);
    }
    let mut overrider = SystemdUnitOverride::new();
    overrider.unset_directive(section, directive);
    Ok(Some(overrider))
}

} // verus!
