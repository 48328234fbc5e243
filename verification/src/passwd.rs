//! Entries of `/etc/passwd`: `name:passwd:uid:gid:gecos:dir:shell`.

use vstd::prelude::*;
use crate::paths::{lemma_first_index_absent, lemma_split_concat};
use crate::text::{
    all_digits, decimal_chars, decimal_spec, extend_chars, extend_str, first_index, lemma_decimal, strip_cr,
    lemma_first_index, lemma_parse_decimal, lines_spec, lines_str, parse_u32, parse_u32_spec,
    seq_to_string, split_spec, split_str, str_eq, str_to_chars,
};
use vstd::string::StringExecFns;

verus! {

/// A field of a passwd entry.
#[derive(Debug, Clone, Copy, PartialEq, Eq)]
pub enum PasswdField {
    Passwd,
    Uid,
    Gid,
    Gecos,
    Dir,
    Shell,
}

/// Why a passwd line could not be read.
#[derive(Debug, Clone, Copy, PartialEq, Eq)]
pub enum PasswdError {
    /// The line ends before this field.
    MissingField(PasswdField),
    /// The uid is not a decimal `u32`.
    InvalidUid,
    /// The gid is not a decimal `u32`.
    InvalidGid,
}

/// The abstract content of a passwd entry.
pub struct PasswdModel {
    pub name: Seq<char>,
    pub passwd: Seq<char>,
    pub uid: u32,
    pub gid: u32,
    pub gecos: Seq<char>,
    pub dir: Seq<char>,
    pub shell: Seq<char>,
}

/// A passwd entry that owns its text.
#[derive(Debug, PartialEq, Clone, Eq, PartialOrd)]
pub struct Passwd {
    pub name: String,
    pub passwd: String,
    pub uid: u32,
    pub gid: u32,
    pub gecos: String,
    pub dir: String,
    pub shell: String,
}

/// A passwd entry that borrows its text.
#[derive(Debug, PartialEq, Eq, PartialOrd)]
pub struct PasswdView<'a> {
    pub name: &'a str,
    pub passwd: &'a str,
    pub uid: u32,
    pub gid: u32,
    pub gecos: &'a str,
    pub dir: &'a str,
    pub shell: &'a str,
}

impl Passwd {
    /// The abstract content of the entry.
    pub open spec fn model(&self) -> PasswdModel {
        PasswdModel {
            name: self.name@,
            passwd: self.passwd@,
            uid: self.uid,
            gid: self.gid,
            gecos: self.gecos@,
            dir: self.dir@,
            shell: self.shell@,
        }
    }
}

impl<'a> View for PasswdView<'a> {
    type V = PasswdModel;

    open spec fn view(&self) -> PasswdModel {
        PasswdModel {
            name: self.name@,
            passwd: self.passwd@,
            uid: self.uid,
            gid: self.gid,
            gecos: self.gecos@,
            dir: self.dir@,
            shell: self.shell@,
        }
    }
}

/// What a line reads as: its first seven `:`-separated fields (any further
/// ones are ignored), the uid and gid in decimal.
pub open spec fn deserialize_spec(line: Seq<char>) -> Result<PasswdModel, PasswdError> {
    let f = split_spec(line, ':');
    if f.len() < 2 {
        Err(PasswdError::MissingField(PasswdField::Passwd))
    } else if f.len() < 3 {
        Err(PasswdError::MissingField(PasswdField::Uid))
    } else if parse_u32_spec(f[2]) is None {
        Err(PasswdError::InvalidUid)
    } else if f.len() < 4 {
        Err(PasswdError::MissingField(PasswdField::Gid))
    } else if parse_u32_spec(f[3]) is None {
        Err(PasswdError::InvalidGid)
    } else if f.len() < 5 {
        Err(PasswdError::MissingField(PasswdField::Gecos))
    } else if f.len() < 6 {
        Err(PasswdError::MissingField(PasswdField::Dir))
    } else if f.len() < 7 {
        Err(PasswdError::MissingField(PasswdField::Shell))
    } else {
        Ok(
            PasswdModel {
                name: f[0],
                passwd: f[1],
                uid: parse_u32_spec(f[2]).unwrap(),
                gid: parse_u32_spec(f[3]).unwrap(),
                gecos: f[4],
                dir: f[5],
                shell: f[6],
            },
        )
    }
}

/// The line an entry is written as.
pub open spec fn serialize_spec(m: PasswdModel) -> Seq<char> {
    m.name + seq![':'] + m.passwd + seq![':'] + decimal_spec(m.uid as nat) + seq![':']
        + decimal_spec(m.gid as nat) + seq![':'] + m.gecos + seq![':'] + m.dir + seq![':'] + m.shell
}

/// No text field of the entry holds a `:`.
pub open spec fn fields_have_no_colon(m: PasswdModel) -> bool {
    !m.name.contains(':') && !m.passwd.contains(':') && !m.gecos.contains(':') && !m.dir.contains(
        ':',
    ) && !m.shell.contains(':')
}

/// Splitting at `:` after a field without `:` gives that field first.
pub proof fn lemma_split_field(a: Seq<char>, b: Seq<char>)
    requires
        !a.contains(':'),
    ensures
        split_spec(a + seq![':'] + b, ':') == seq![a] + split_spec(b, ':'),
{
    lemma_split_concat(a, ':', b);
    lemma_first_index_absent(a, ':');
    assert(split_spec(a, ':') == seq![a]);
}

/// A decimal number holds no `:`.
pub proof fn lemma_digits_no_colon(n: nat)
    ensures
        !decimal_spec(n).contains(':'),
{
    lemma_decimal(n);
    if decimal_spec(n).contains(':') {
        let i = choose|i: int| 0 <= i < decimal_spec(n).len() && decimal_spec(n)[i] == ':';
        assert(crate::text::is_digit(decimal_spec(n)[i]));
    }
}

/// Reading back a written entry gives the entry, when its text fields hold no `:`.
pub proof fn lemma_serialize_deserialize(m: PasswdModel)
    requires
        fields_have_no_colon(m),
    ensures
        deserialize_spec(serialize_spec(m)) == Ok::<PasswdModel, PasswdError>(m),
{
    let u = decimal_spec(m.uid as nat);
    let g = decimal_spec(m.gid as nat);
    lemma_digits_no_colon(m.uid as nat);
    lemma_digits_no_colon(m.gid as nat);
    lemma_parse_decimal(m.uid);
    lemma_parse_decimal(m.gid);
    let t6 = m.shell;
    let t5 = m.dir + seq![':'] + t6;
    let t4 = m.gecos + seq![':'] + t5;
    let t3 = g + seq![':'] + t4;
    let t2 = u + seq![':'] + t3;
    let t1 = m.passwd + seq![':'] + t2;
    let t0 = m.name + seq![':'] + t1;
    assert(serialize_spec(m) =~= t0);
    lemma_first_index_absent(t6, ':');
    assert(split_spec(t6, ':') == seq![t6]);
    lemma_split_field(m.dir, t6);
    lemma_split_field(m.gecos, t5);
    lemma_split_field(g, t4);
    lemma_split_field(u, t3);
    lemma_split_field(m.passwd, t2);
    lemma_split_field(m.name, t1);
    let f = split_spec(t0, ':');
    assert(f =~= seq![m.name, m.passwd, u, g, m.gecos, m.dir, m.shell]);
}

impl<'a> PasswdView<'a> {
    /// Writes the entry as one line, without a line break.
    pub fn serialize(&self) -> (r: String)
        ensures
            r@ == serialize_spec(self@),
    {
        let mut v: Vec<char> = Vec::new();
        extend_str(&mut v, self.name);
        v.push(':');
        extend_str(&mut v, self.passwd);
        v.push(':');
        let u = decimal_chars(self.uid);
        extend_chars(&mut v, &u);
        v.push(':');
        let g = decimal_chars(self.gid);
        extend_chars(&mut v, &g);
        v.push(':');
        extend_str(&mut v, self.gecos);
        v.push(':');
        extend_str(&mut v, self.dir);
        v.push(':');
        extend_str(&mut v, self.shell);
        assert(v@ =~= serialize_spec(self@));
        seq_to_string(&v)
    }

    /// Reads an entry from one line.
    pub fn deserialize(line: &'a str) -> (r: Result<PasswdView<'a>, PasswdError>)
        ensures
            match deserialize_spec(line@) {
                Ok(m) => r matches Ok(v) && v@ == m,
                Err(e) => r == Err::<PasswdView<'a>, PasswdError>(e),
            },
    {
        let f = split_str(line, ':');
        let ghost fs = split_spec(line@, ':');
        assert(f@.map_values(|x: &str| x@) == fs);
        if f.len() < 2 {
            return Err(PasswdError::MissingField(PasswdField::Passwd));
        }
        if f.len() < 3 {
            return Err(PasswdError::MissingField(PasswdField::Uid));
        }
        assert(f@[2]@ == fs[2]);
        let uid = match parse_u32(f[2]) {
            Some(u) => u,
            None => {
                return Err(PasswdError::InvalidUid);
            },
        };
        if f.len() < 4 {
            return Err(PasswdError::MissingField(PasswdField::Gid));
        }
        assert(f@[3]@ == fs[3]);
        let gid = match parse_u32(f[3]) {
            Some(g) => g,
            None => {
                return Err(PasswdError::InvalidGid);
            },
        };
        if f.len() < 5 {
            return Err(PasswdError::MissingField(PasswdField::Gecos));
        }
        if f.len() < 6 {
            return Err(PasswdError::MissingField(PasswdField::Dir));
        }
        if f.len() < 7 {
            return Err(PasswdError::MissingField(PasswdField::Shell));
        }
        assert(f@[0]@ == fs[0]);
        assert(f@[1]@ == fs[1]);
        assert(f@[4]@ == fs[4]);
        assert(f@[5]@ == fs[5]);
        assert(f@[6]@ == fs[6]);
        Ok(
            PasswdView {
                name: f[0],
                passwd: f[1],
                uid,
                gid,
                gecos: f[4],
                dir: f[5],
                shell: f[6],
            },
        )
    }
}

impl Passwd {
    /// The entry, borrowing its text.
    pub fn view(&self) -> (r: PasswdView<'_>)
        ensures
            r@ == self.model(),
    {
        PasswdView {
            name: self.name.as_str(),
            passwd: self.passwd.as_str(),
            uid: self.uid,
            gid: self.gid,
            gecos: self.gecos.as_str(),
            dir: self.dir.as_str(),
            shell: self.shell.as_str(),
        }
    }

    /// The entry, owning a copy of its text.
    pub fn from_view(view: PasswdView) -> (r: Passwd)
        ensures
            r.model() == view@,
    {
        Passwd {
            name: view.name.to_owned(),
            passwd: view.passwd.to_owned(),
            uid: view.uid,
            gid: view.gid,
            gecos: view.gecos.to_owned(),
            dir: view.dir.to_owned(),
            shell: view.shell.to_owned(),
        }
    }
}


/// The first entry among `lines` that `wanted` accepts; a line that does not
/// read as an entry before it is an error.
pub open spec fn find_entry(lines: Seq<Seq<char>>, wanted: spec_fn(PasswdModel) -> bool) -> Result<
    Option<PasswdModel>,
    PasswdError,
>
    decreases lines.len(),
{
    if lines.len() == 0 {
        Ok(None)
    } else {
        match deserialize_spec(lines[0]) {
            Err(e) => Err(e),
            Ok(m) => if wanted(m) {
                Ok(Some(m))
            } else {
                find_entry(lines.drop_first(), wanted)
            },
        }
    }
}

/// Accepts the entries named `name`.
pub open spec fn has_name(name: Seq<char>) -> spec_fn(PasswdModel) -> bool {
    |m: PasswdModel| m.name == name
}

/// Accepts the entries whose uid is `uid`.
pub open spec fn has_uid(uid: u32) -> spec_fn(PasswdModel) -> bool {
    |m: PasswdModel| m.uid == uid
}

/// What a search over the entries gives, on the entries borrowed from a file.
pub open spec fn found_as<'a>(
    r: Result<Option<PasswdView<'a>>, PasswdError>,
    f: Result<Option<PasswdModel>, PasswdError>,
) -> bool {
    match f {
        Ok(Some(m)) => (r matches Ok(Some(v)) && v@ == m),
        Ok(None) => (r matches Ok(None)),
        Err(e) => (r matches Err(e2) && e2 == e),
    }
}

/// `r` holds what `line` reads as.
pub open spec fn read_as<'a>(r: Option<Result<PasswdView<'a>, PasswdError>>, line: Seq<char>) -> bool {
    match r {
        None => false,
        Some(x) => match deserialize_spec(line) {
            Ok(m) => (x matches Ok(v) && v@ == m),
            Err(e) => (x matches Err(e2) && e2 == e),
        },
    }
}

/// The contents of a passwd file, and where it lives.
#[derive(Debug, Clone)]
pub struct PasswdFile {
    file_cont: String,
    path: String,
}

impl PasswdFile {
    /// The text of the file.
    pub closed spec fn content(&self) -> Seq<char> {
        self.file_cont@
    }

    /// The path of the file.
    pub closed spec fn file_path(&self) -> Seq<char> {
        self.path@
    }

    /// The pieces of the text between line breaks, as the entries are read.
    pub open spec fn entry_lines(&self) -> Seq<Seq<char>> {
        split_spec(self.content(), '\n')
    }

    /// A passwd file at `path` whose text is `file_cont`.
    pub fn new(path: String, file_cont: String) -> (r: PasswdFile)
        ensures
            r.content() == file_cont@,
            r.file_path() == path@,
    {
        PasswdFile { file_cont, path }
    }

    /// The text of the file.
    pub fn contents(&self) -> (r: &str)
        ensures
            r@ == self.content(),
    {
        self.file_cont.as_str()
    }

    /// The path of the file.
    pub fn path(&self) -> (r: &str)
        ensures
            r@ == self.file_path(),
    {
        self.path.as_str()
    }

    /// Replaces the text, as after the file was written anew.
    pub fn set_contents(&mut self, file_cont: String)
        ensures
            final(self).content() == file_cont@,
            final(self).file_path() == old(self).file_path(),
    {
        self.file_cont = file_cont;
    }

    /// The entries, one for each piece of the text between line breaks.
    pub fn entries(&self) -> (r: PasswdIterator<'_>)
        ensures
            r.remaining() == self.entry_lines(),
    {
        let lines = split_str(self.file_cont.as_str(), '\n');
        let r = PasswdIterator { passwd_lines: lines, pos: 0 };
        assert(r.remaining() =~= self.entry_lines());
        r
    }

    /// The first entry named `user_name`.
    pub fn get_ent_by_name(&self, user_name: &str) -> (r: Result<Option<PasswdView<'_>>, PasswdError>)
        ensures
            found_as(r, find_entry(self.entry_lines(), has_name(user_name@))),
    {
        let lines = split_str(self.file_cont.as_str(), '\n');
        let ghost all = self.entry_lines();
        let ghost wanted = has_name(user_name@);
        let mut i: usize = 0;
        assert(all.skip(0) =~= all);
        while i < lines.len()
            invariant
                wanted == has_name(user_name@),
                i <= lines.len(),
                lines@.map_values(|x: &str| x@) == all,
                all == self.entry_lines(),
                find_entry(all, wanted) == find_entry(all.skip(i as int), wanted),
            decreases lines.len() - i,
        {
            let ghost rest = all.skip(i as int);
            assert(rest[0] == lines@[i as int]@);
            assert(rest.drop_first() =~= all.skip(i + 1));
            assert(rest.len() > 0);
            let parsed = PasswdView::deserialize(lines[i]);
            assert(find_entry(rest, wanted) == match deserialize_spec(rest[0]) {
                Err(e) => Err(e),
                Ok(m) => if wanted(m) {
                    Ok(Some(m))
                } else {
                    find_entry(rest.drop_first(), wanted)
                },
            });
            match parsed {
                Err(e) => {
                    assert(deserialize_spec(rest[0]) == Err::<PasswdModel, PasswdError>(e));
                    return Err(e);
                },
                Ok(entry) => {
                    assert(deserialize_spec(rest[0]) == Ok::<PasswdModel, PasswdError>(entry@));
                    if str_eq(entry.name, user_name) {
                        return Ok(Some(entry));
                    }
                },
            }
            i = i + 1;
        }
        Ok(None)
    }

    /// The first entry whose uid is `uid`.
    pub fn get_ent_by_uid(&self, uid: u32) -> (r: Result<Option<PasswdView<'_>>, PasswdError>)
        ensures
            found_as(r, find_entry(self.entry_lines(), has_uid(uid))),
    {
        let lines = split_str(self.file_cont.as_str(), '\n');
        let ghost all = self.entry_lines();
        let ghost wanted = has_uid(uid);
        let mut i: usize = 0;
        assert(all.skip(0) =~= all);
        while i < lines.len()
            invariant
                wanted == has_uid(uid),
                i <= lines.len(),
                lines@.map_values(|x: &str| x@) == all,
                all == self.entry_lines(),
                find_entry(all, wanted) == find_entry(all.skip(i as int), wanted),
            decreases lines.len() - i,
        {
            let ghost rest = all.skip(i as int);
            assert(rest[0] == lines@[i as int]@);
            assert(rest.drop_first() =~= all.skip(i + 1));
            assert(rest.len() > 0);
            let parsed = PasswdView::deserialize(lines[i]);
            assert(find_entry(rest, wanted) == match deserialize_spec(rest[0]) {
                Err(e) => Err(e),
                Ok(m) => if wanted(m) {
                    Ok(Some(m))
                } else {
                    find_entry(rest.drop_first(), wanted)
                },
            });
            match parsed {
                Err(e) => {
                    assert(deserialize_spec(rest[0]) == Err::<PasswdModel, PasswdError>(e));
                    return Err(e);
                },
                Ok(entry) => {
                    assert(deserialize_spec(rest[0]) == Ok::<PasswdModel, PasswdError>(entry@));
                    if entry.uid == uid {
                        return Ok(Some(entry));
                    }
                },
            }
            i = i + 1;
        }
        Ok(None)
    }
}

/// Reads the entries of a passwd file one line at a time.
pub struct PasswdIterator<'a> {
    passwd_lines: Vec<&'a str>,
    pos: usize,
}

impl<'a> PasswdIterator<'a> {
    /// The lines not read yet.
    pub closed spec fn remaining(&self) -> Seq<Seq<char>> {
        if self.pos <= self.passwd_lines.len() {
            self.passwd_lines@.map_values(|x: &str| x@).skip(self.pos as int)
        } else {
            Seq::empty()
        }
    }

    /// The next entry, or `None` when every line was read.
    pub fn next(&mut self) -> (r: Option<Result<PasswdView<'a>, PasswdError>>)
        ensures
            old(self).remaining().len() == 0 ==> r is None && final(self).remaining() == old(
                self,
            ).remaining(),
            old(self).remaining().len() > 0 ==> final(self).remaining() == old(
                self,
            ).remaining().drop_first() && read_as(r, old(self).remaining()[0]),
    {
        if self.pos >= self.passwd_lines.len() {
            return None;
        }
        let line = self.passwd_lines[self.pos];
        let ghost old_rest = self.remaining();
        assert(old_rest[0] == line@);
        self.pos = self.pos + 1;
        assert(self.remaining() =~= old_rest.drop_first());
        Some(PasswdView::deserialize(line))
    }
}

/// The line written for an entry in a rewrite: the new entry where there is
/// one, else the line as it was; either way ended by a line break.
pub open spec fn rewritten_line(line: Seq<char>, update: Option<PasswdModel>) -> Seq<char> {
    match update {
        Some(m) => serialize_spec(m) + seq!['\n'],
        None => line + seq!['\n'],
    }
}

/// The text written when each of `lines` is rewritten by the update beside it.
pub open spec fn rewrite_spec(lines: Seq<Seq<char>>, updates: Seq<Option<PasswdModel>>) -> Seq<char>
    decreases lines.len(),
{
    if lines.len() == 0 || updates.len() == 0 {
        Seq::empty()
    } else {
        rewritten_line(lines[0], updates[0]) + rewrite_spec(lines.drop_first(), updates.drop_first())
    }
}

/// A rewrite of a passwd file in progress: the lines still to visit and the
/// text written so far. Each line is read as an entry, the caller decides
/// whether to replace it, and the new text is written line by line.
pub struct PasswdUpdate<'a> {
    lines: Vec<&'a str>,
    pos: usize,
    new_cont: String,
    visited: Ghost<Seq<Seq<char>>>,
    applied: Ghost<Seq<Option<PasswdModel>>>,
}

impl<'a> PasswdUpdate<'a> {
    /// The lines not visited yet.
    pub closed spec fn pending(&self) -> Seq<Seq<char>> {
        if self.pos <= self.lines.len() {
            self.lines@.map_values(|x: &str| x@).skip(self.pos as int)
        } else {
            Seq::empty()
        }
    }

    /// All the lines of the text being rewritten.
    pub closed spec fn all_lines(&self) -> Seq<Seq<char>> {
        self.lines@.map_values(|x: &str| x@)
    }

    /// The lines visited so far.
    pub closed spec fn visited(&self) -> Seq<Seq<char>> {
        self.visited@
    }

    /// The updates applied so far, one for each visited line.
    pub closed spec fn applied(&self) -> Seq<Option<PasswdModel>> {
        self.applied@
    }

    /// The text written so far.
    pub closed spec fn written(&self) -> Seq<char> {
        self.new_cont@
    }

    /// The state is consistent: the text written so far is the rewrite of the
    /// visited lines, and the visited and pending lines make up all the lines.
    pub closed spec fn wf(&self) -> bool {
        &&& self.pos <= self.lines.len()
        &&& self.visited@ == self.lines@.map_values(|x: &str| x@).take(self.pos as int)
        &&& self.applied@.len() == self.pos
        &&& self.new_cont@ == rewrite_spec(self.visited@, self.applied@)
    }

    /// The entry on the next line to visit, or `None` when every line was visited.
    pub fn current(&self) -> (r: Option<Result<PasswdView<'a>, PasswdError>>)
        requires
            self.wf(),
        ensures
            self.pending().len() == 0 ==> r is None,
            self.pending().len() > 0 ==> read_as(r, self.pending()[0]),
    {
        if self.pos >= self.lines.len() {
            return None;
        }
        assert(self.pending()[0] == self.lines@[self.pos as int]@);
        Some(PasswdView::deserialize(self.lines[self.pos]))
    }

    /// Writes the next line: the serialized `update` if there is one, else the
    /// line as it was.
    pub fn apply(&mut self, update: Option<&Passwd>)
        requires
            old(self).wf(),
            old(self).pending().len() > 0,
        ensures
            final(self).wf(),
            final(self).pending() == old(self).pending().drop_first(),
            final(self).all_lines() == old(self).all_lines(),
            final(self).visited() == old(self).visited().push(old(self).pending()[0]),
            final(self).applied() == old(self).applied().push(
                match update {
                    Some(p) => Some(p.model()),
                    None => None,
                },
            ),
            final(self).written() == old(self).written() + rewritten_line(
                old(self).pending()[0],
                match update {
                    Some(p) => Some(p.model()),
                    None => None,
                },
            ),
    {
        let line = self.lines[self.pos];
        let ghost lv = self.lines@.map_values(|x: &str| x@);
        let ghost old_self = *self;
        assert(old_self.pending()[0] == line@);
        let ghost m: Option<PasswdModel> = match update {
            Some(p) => Some(p.model()),
            None => None,
        };
        match update {
            Some(p) => {
                let text = p.view().serialize();
                self.new_cont.append(text.as_str());
            },
            None => {
                self.new_cont.append(line);
            },
        }
        self.new_cont.append("\n");
        proof {
            reveal_strlit("\n");
        }
        assert(self.new_cont@ =~= old_self.new_cont@ + rewritten_line(line@, m));
        self.pos = self.pos + 1;
        self.visited = Ghost(old_self.visited@.push(line@));
        self.applied = Ghost(old_self.applied@.push(m));
        assert(self.pending() =~= old_self.pending().drop_first());
        assert(self.visited@ =~= lv.take(self.pos as int));
        proof {
            lemma_rewrite_push(old_self.visited@, old_self.applied@, line@, m);
        }
    }

    /// The text written, once every line was visited.
    pub fn finish(self) -> (r: String)
        requires
            self.wf(),
        ensures
            r@ == self.written(),
            r@ == rewrite_spec(self.visited(), self.applied()),
            self.visited().len() == self.applied().len(),
            self.pending().len() == 0 ==> self.visited() == self.all_lines(),
    {
        assert(self.pending().len() == 0 ==> self.visited@ =~= self.all_lines());
        self.new_cont
    }
}

/// Rewriting one more line appends that line's rewrite.
pub proof fn lemma_rewrite_push(
    lines: Seq<Seq<char>>,
    updates: Seq<Option<PasswdModel>>,
    line: Seq<char>,
    update: Option<PasswdModel>,
)
    requires
        lines.len() == updates.len(),
    ensures
        rewrite_spec(lines.push(line), updates.push(update)) == rewrite_spec(lines, updates)
            + rewritten_line(line, update),
    decreases lines.len(),
{
    if lines.len() == 0 {
        assert(lines.push(line).drop_first() =~= Seq::<Seq<char>>::empty());
        assert(updates.push(update).drop_first() =~= Seq::<Option<PasswdModel>>::empty());
        assert(lines.push(line)[0] == line);
        assert(updates.push(update)[0] == update);
        assert(rewrite_spec(Seq::empty(), Seq::empty()) == Seq::<char>::empty());
        assert(rewrite_spec(lines.push(line), updates.push(update)) =~= rewritten_line(line, update));
    } else {
        lemma_rewrite_push(lines.drop_first(), updates.drop_first(), line, update);
        assert(lines.push(line).drop_first() =~= lines.drop_first().push(line));
        assert(updates.push(update).drop_first() =~= updates.drop_first().push(update));
        assert(rewrite_spec(lines.push(line), updates.push(update)) =~= rewrite_spec(lines, updates)
            + rewritten_line(line, update));
    }
}

impl PasswdFile {
    /// The lines of the text, as a rewrite visits them.
    pub open spec fn update_lines(&self) -> Seq<Seq<char>> {
        lines_spec(self.content())
    }

    /// Starts a rewrite of the file, before its first line.
    pub fn start_update(&self) -> (r: PasswdUpdate<'_>)
        ensures
            r.wf(),
            r.pending() == self.update_lines(),
            r.all_lines() == self.update_lines(),
            r.visited() == Seq::<Seq<char>>::empty(),
            r.applied() == Seq::<Option<PasswdModel>>::empty(),
            r.written() == Seq::<char>::empty(),
    {
        let lines = lines_str(self.file_cont.as_str());
        let r = PasswdUpdate {
            lines,
            pos: 0,
            new_cont: String::new(),
            visited: Ghost(Seq::empty()),
            applied: Ghost(Seq::empty()),
        };
        assert(r.pending() =~= self.update_lines());
        assert(lines@.map_values(|x: &str| x@).take(0) =~= Seq::<Seq<char>>::empty());
        r
    }
}


/// No `\r` stands right before a `\n` in `s`.
pub open spec fn no_crlf(s: Seq<char>) -> bool {
    forall|i: int| 0 <= i < s.len() - 1 ==> !(#[trigger] s[i] == '\r' && s[i + 1] == '\n')
}

/// `n` lines left as they are.
pub open spec fn no_updates(n: nat) -> Seq<Option<PasswdModel>> {
    Seq::new(n, |k: int| None)
}

/// A rewrite that replaces no entry writes back the text it read, when the
/// text ends with a line break (or is empty) and holds no `\r\n`.
pub proof fn lemma_rewrite_unchanged(s: Seq<char>)
    requires
        s.len() == 0 || s.last() == '\n',
        no_crlf(s),
    ensures
        rewrite_spec(lines_spec(s), no_updates(lines_spec(s).len())) == s,
    decreases s.len(),
{
    if s.len() > 0 {
        lemma_first_index(s, '\n');
        let i = first_index(s, '\n');
        assert(i >= 0) by {
            if i < 0 {
                assert(s[s.len() - 1] == '\n');
            }
        }
        let head = s.take(i);
        let rest = s.skip(i + 1);
        if i > 0 {
            assert(!(s[i - 1] == '\r' && s[i] == '\n'));
            assert(head.last() == s[i - 1]);
        }
        assert(strip_cr(head) == head);
        assert(no_crlf(rest)) by {
            assert forall|k: int| 0 <= k < rest.len() - 1 implies !(#[trigger] rest[k] == '\r'
                && rest[k + 1] == '\n') by {
                assert(rest[k] == s[i + 1 + k]);
                assert(rest[k + 1] == s[i + 1 + k + 1]);
            }
        }
        if rest.len() > 0 {
            assert(rest.last() == s.last());
        }
        lemma_rewrite_unchanged(rest);
        let ls = lines_spec(s);
        let n = ls.len();
        assert(ls =~= seq![head] + lines_spec(rest));
        assert(ls.drop_first() =~= lines_spec(rest));
        assert(no_updates(n).drop_first() =~= no_updates((n - 1) as nat));
        assert(s =~= head + seq!['\n'] + rest);
    }
}

/// A rewrite of a file that has visited every line and replaced none has
/// written back the file's text, when the text ends with a line break (or is
/// empty) and holds no `\r\n`; the file then holds the same entries.
pub proof fn lemma_update_unchanged<'a>(f: PasswdFile, u: PasswdUpdate<'a>)
    requires
        u.wf(),
        u.all_lines() == f.update_lines(),
        u.pending().len() == 0,
        forall|i: int| 0 <= i < u.applied().len() ==> u.applied()[i] is None,
        f.content().len() == 0 || f.content().last() == '\n',
        no_crlf(f.content()),
    ensures
        u.written() == f.content(),
{
    let all = u.all_lines();
    assert(u.pos == u.lines.len());
    assert(u.visited() =~= all);
    assert(u.applied() =~= no_updates(all.len()));
    lemma_rewrite_unchanged(f.content());
}

} // verus!
