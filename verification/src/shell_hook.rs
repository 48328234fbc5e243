//! The default shell hook: every user's login shell in `/etc/passwd` is
//! replaced by its command alias, so that logins go through distrod; and
//! the reverse.

use vstd::prelude::*;
use crate::command_alias::{lemma_alias_dir_shape, lemma_alias_round_trip, link_path_for, source_path_for, AliasError, CommandAlias};
use crate::distrod_config::alias_dir;
use crate::paths::{
    components, ends_clean, has_root, lemma_first_index_absent, lemma_first_index_concat, lemma_raw_round_trip,
    lemma_split_pieces_no_sep, path_join, path_starts_with, raw_rest,
};
use crate::passwd::{
    deserialize_spec, fields_have_no_colon, lemma_rewrite_unchanged, lemma_serialize_deserialize, no_crlf,
    no_updates, rewrite_spec, rewritten_line, serialize_spec, Passwd, PasswdError, PasswdFile, PasswdModel, PasswdView,
};
use crate::text::{
    ends_with_chars, first_index, has_suffix, lemma_first_index, lines_spec, split_spec, str_eq, str_to_chars, strip_cr,
};

verus! {

/// Why the shells could not be hooked or unhooked.
#[derive(Debug, Clone, Copy, PartialEq, Eq)]
pub enum ShellHookError {
    /// A line of the passwd file is not an entry.
    Passwd(PasswdError),
    /// An entry's shell has no alias.
    Alias(AliasError),
}

/// The entry with `shell` as its shell.
pub open spec fn with_shell(m: PasswdModel, shell: Seq<char>) -> PasswdModel {
    PasswdModel { shell, ..m }
}

/// What hooking does to an entry: a shell that is already an alias is left
/// alone; any other is replaced by its alias, which needs an absolute path.
pub open spec fn hook_update(m: PasswdModel) -> Result<Option<PasswdModel>, AliasError> {
    if path_starts_with(m.shell, alias_dir()) {
        Ok(None)
    } else if !has_root(m.shell) {
        Err(AliasError::SourceNotAbsolute)
    } else {
        Ok(Some(with_shell(m, link_path_for(m.shell))))
    }
}

/// What unhooking does to an entry: a shell that is an alias is replaced by
/// the command it stands for; any other is left alone.
pub open spec fn unhook_update(m: PasswdModel) -> Result<Option<PasswdModel>, AliasError> {
    if !path_starts_with(m.shell, alias_dir()) {
        Ok(None)
    } else {
        match source_path_for(m.shell) {
            Some(src) => Ok(Some(with_shell(m, src))),
            None => Err(AliasError::NotInAliasDir),
        }
    }
}

/// `us0` followed by the updates of `r`, or the error of `r`.
pub open spec fn prepend(
    us0: Seq<Option<PasswdModel>>,
    r: Result<Seq<Option<PasswdModel>>, ShellHookError>,
) -> Result<Seq<Option<PasswdModel>>, ShellHookError> {
    match r {
        Ok(us) => Ok(us0 + us),
        Err(e) => Err(e),
    }
}

/// The updates that hooking (`hook` true) or unhooking gives the lines, one
/// for each; the first line that is not an entry, or whose shell has no
/// alias, is an error.
pub open spec fn shell_updates(lines: Seq<Seq<char>>, hook: bool) -> Result<Seq<Option<PasswdModel>>, ShellHookError>
    decreases lines.len(),
{
    if lines.len() == 0 {
        Ok(Seq::empty())
    } else {
        match deserialize_spec(lines[0]) {
            Err(e) => Err(ShellHookError::Passwd(e)),
            Ok(m) => match (if hook { hook_update(m) } else { unhook_update(m) }) {
                Err(e) => Err(ShellHookError::Alias(e)),
                Ok(u) => prepend(seq![u], shell_updates(lines.drop_first(), hook)),
            },
        }
    }
}

/// The shells of the entries that were replaced, in order.
pub open spec fn new_shells(us: Seq<Option<PasswdModel>>) -> Seq<Seq<char>>
    decreases us.len(),
{
    if us.len() == 0 {
        Seq::empty()
    } else {
        new_shells(us.drop_last()) + match us.last() {
            Some(m) => seq![m.shell],
            None => Seq::empty(),
        }
    }
}

/// The entry that hooking writes for `passwd`, if it changes it.
pub fn hook_entry(passwd: &PasswdView) -> (r: Result<Option<Passwd>, AliasError>)
    ensures
        match hook_update(passwd@) {
            Ok(Some(m)) => (r matches Ok(Some(p)) && p.model() == m),
            Ok(None) => (r matches Ok(None)),
            Err(e) => (r matches Err(e2) && e2 == e),
        },
{
    if CommandAlias::is_alias(passwd.shell) {
        return Ok(None);
    }
    let alias = match CommandAlias::from_source(passwd.shell) {
        Ok(a) => a,
        Err(e) => {
            return Err(e);
        },
    };
    let mut new_passwd = Passwd::from_view(PasswdView { ..*passwd });
    new_passwd.shell = alias.get_link_path().to_owned();
    Ok(Some(new_passwd))
}

/// The entry that unhooking writes for `passwd`, if it changes it.
pub fn unhook_entry(passwd: &PasswdView) -> (r: Result<Option<Passwd>, AliasError>)
    ensures
        match unhook_update(passwd@) {
            Ok(Some(m)) => (r matches Ok(Some(p)) && p.model() == m),
            Ok(None) => (r matches Ok(None)),
            Err(e) => (r matches Err(e2) && e2 == e),
        },
{
    if !CommandAlias::is_alias(passwd.shell) {
        return Ok(None);
    }
    let alias = match CommandAlias::open_from_link(passwd.shell) {
        Ok(a) => a,
        Err(e) => {
            return Err(e);
        },
    };
    let mut new_passwd = Passwd::from_view(PasswdView { ..*passwd });
    new_passwd.shell = alias.get_source_path().to_owned();
    Ok(Some(new_passwd))
}

/// The outcome of hooking or unhooking the shells: the new text of the
/// passwd file, and the shells written into it.
pub struct ShellHookUpdate {
    pub contents: String,
    pub shells: Vec<String>,
}

/// Rewrites the passwd file, each entry as hooking (`hook` true) or
/// unhooking gives it.
fn rewrite_shells(passwd_file: &PasswdFile, hook: bool) -> (r: Result<ShellHookUpdate, ShellHookError>)
    ensures
        match shell_updates(passwd_file.update_lines(), hook) {
            Ok(us) => (r matches Ok(h) && h.contents@ == rewrite_spec(passwd_file.update_lines(), us)
                && h.shells@.map_values(|s: String| s@) == new_shells(us)),
            Err(e) => (r matches Err(e2) && e2 == e),
        },
{
    let ghost all = passwd_file.update_lines();
    let mut u = passwd_file.start_update();
    let mut shells: Vec<String> = Vec::new();
    assert(all =~= Seq::<Seq<char>>::empty() + all);
    proof {
        assert(prepend(Seq::empty(), shell_updates(all, hook)) =~= shell_updates(all, hook)) by {
            match shell_updates(all, hook) {
                Ok(us) => {
                    assert(Seq::<Option<PasswdModel>>::empty() + us =~= us);
                },
                Err(_) => {},
            }
        }
    }
    loop
        invariant
            u.wf(),
            all == passwd_file.update_lines(),
            u.all_lines() == all,
            u.visited() + u.pending() == all,
            shell_updates(all, hook) == prepend(u.applied(), shell_updates(u.pending(), hook)),
            shells@.map_values(|s: String| s@) == new_shells(u.applied()),
        ensures
            u.wf(),
            u.pending().len() == 0,
            all == passwd_file.update_lines(),
            u.all_lines() == all,
            u.visited() + u.pending() == all,
            shell_updates(all, hook) == prepend(u.applied(), shell_updates(u.pending(), hook)),
            shells@.map_values(|s: String| s@) == new_shells(u.applied()),
        decreases u.pending().len(),
    {
        let entry = match u.current() {
            None => {
                break;
            },
            Some(e) => e,
        };
        let ghost pend = u.pending();
        let entry = match entry {
            Err(e) => {
                assert(shell_updates(pend, hook) == Err::<Seq<Option<PasswdModel>>, ShellHookError>(ShellHookError::Passwd(e)));
                return Err(ShellHookError::Passwd(e));
            },
            Ok(v) => v,
        };
        let update = if hook {
            hook_entry(&entry)
        } else {
            unhook_entry(&entry)
        };
        let update = match update {
            Err(e) => {
                assert(shell_updates(pend, hook) == Err::<Seq<Option<PasswdModel>>, ShellHookError>(ShellHookError::Alias(e)));
                return Err(ShellHookError::Alias(e));
            },
            Ok(p) => p,
        };
        let ghost m: Option<PasswdModel> = match &update {
            Some(p) => Some(p.model()),
            None => None,
        };
        let ghost old_applied = u.applied();
        let ghost old_visited = u.visited();
        let ghost old_shells = shells@.map_values(|s: String| s@);
        match &update {
            Some(p) => {
                shells.push(p.shell.as_str().to_owned());
                assert(shells@.map_values(|s: String| s@) =~= old_shells.push(p.shell@));
            },
            None => {},
        }
        u.apply(update.as_ref());
        proof {
            assert(u.applied() == old_applied.push(m));
            assert(u.applied().drop_last() =~= old_applied);
            assert(shells@.map_values(|s: String| s@) =~= new_shells(u.applied()));
            assert(pend =~= seq![pend[0]] + u.pending());
            assert(pend.drop_first() =~= u.pending());
            assert(u.visited() + u.pending() =~= old_visited + pend);
            match shell_updates(u.pending(), hook) {
                Ok(us) => {
                    assert(old_applied + (seq![m] + us) =~= old_applied.push(m) + us);
                },
                Err(_) => {},
            }
        }
    }
    let ghost applied = u.applied();
    assert(u.pending().len() == 0);
    assert(u.visited() =~= all);
    assert(shell_updates(Seq::<Seq<char>>::empty(), hook) == Ok::<Seq<Option<PasswdModel>>, ShellHookError>(Seq::empty()));
    assert(u.pending() =~= Seq::<Seq<char>>::empty());
    assert(applied + Seq::<Option<PasswdModel>>::empty() =~= applied);
    let contents = u.finish();
    Ok(ShellHookUpdate { contents, shells })
}

/// Replaces every user's shell by its alias: the new text of the passwd file
/// and the aliases written into it. Making the alias links, writing the file
/// and registering the shells are left to the caller.
pub fn enable_default_shell_hook(passwd_file: &PasswdFile) -> (r: Result<ShellHookUpdate, ShellHookError>)
    ensures
        match shell_updates(passwd_file.update_lines(), true) {
            Ok(us) => (r matches Ok(h) && h.contents@ == rewrite_spec(passwd_file.update_lines(), us)
                && h.shells@.map_values(|s: String| s@) == new_shells(us)),
            Err(e) => (r matches Err(e2) && e2 == e),
        },
{
    rewrite_shells(passwd_file, true)
}

/// Puts back every user's shell that is an alias: the new text of the passwd
/// file. Writing the file is left to the caller.
pub fn disable_default_shell_hook(passwd_file: &PasswdFile) -> (r: Result<ShellHookUpdate, ShellHookError>)
    ensures
        match shell_updates(passwd_file.update_lines(), false) {
            Ok(us) => (r matches Ok(h) && h.contents@ == rewrite_spec(passwd_file.update_lines(), us)
                && h.shells@.map_values(|s: String| s@) == new_shells(us)),
            Err(e) => (r matches Err(e2) && e2 == e),
        },
{
    rewrite_shells(passwd_file, false)
}

/// A shell that `/etc/shells` is not meant to list.
pub open spec fn is_no_login_shell(s: Seq<char>) -> bool {
    has_suffix(s, "/nologin"@) || has_suffix(s, "/false"@)
}

/// The shells to add to `/etc/shells`, which lists `existing`: each shell
/// not listed yet, once, in order, except those that refuse a login.
pub open spec fn shells_to_register_spec(existing: Seq<Seq<char>>, shells: Seq<Seq<char>>) -> Seq<Seq<char>>
    decreases shells.len(),
{
    if shells.len() == 0 {
        Seq::empty()
    } else {
        let prev = shells.drop_last();
        let s = shells.last();
        let r = shells_to_register_spec(existing, prev);
        if existing.contains(s) || prev.contains(s) || is_no_login_shell(s) {
            r
        } else {
            r.push(s)
        }
    }
}

/// `v` holds a string equal to `s`.
fn contains_str(v: &Vec<String>, s: &str, upto: usize) -> (r: bool)
    requires
        upto <= v.len(),
    ensures
        r == v@.map_values(|x: String| x@).take(upto as int).contains(s@),
{
    let ghost vv = v@.map_values(|x: String| x@);
    let mut i: usize = 0;
    while i < upto
        invariant
            i <= upto <= v.len(),
            vv == v@.map_values(|x: String| x@),
            !vv.take(i as int).contains(s@),
        decreases upto - i,
    {
        if str_eq(v[i].as_str(), s) {
            assert(vv.take(upto as int)[i as int] == s@);
            return true;
        }
        assert(vv.take(i + 1) =~= vv.take(i as int).push(vv[i as int]));
        i = i + 1;
    }
    false
}

/// The shells to add to `/etc/shells`, whose lines are `existing`.
pub fn shells_to_register(existing: &Vec<String>, shells: &Vec<String>) -> (r: Vec<String>)
    ensures
        r@.map_values(|x: String| x@) == shells_to_register_spec(
            existing@.map_values(|x: String| x@),
            shells@.map_values(|x: String| x@),
        ),
{
    let ghost ev = existing@.map_values(|x: String| x@);
    let ghost sv = shells@.map_values(|x: String| x@);
    let nologin = str_to_chars("/nologin");
    let nofalse = str_to_chars("/false");
    let mut r: Vec<String> = Vec::new();
    let mut i: usize = 0;
    assert(sv.take(0) =~= Seq::<Seq<char>>::empty());
    while i < shells.len()
        invariant
            i <= shells.len(),
            ev == existing@.map_values(|x: String| x@),
            sv == shells@.map_values(|x: String| x@),
            nologin@ == "/nologin"@,
            nofalse@ == "/false"@,
            r@.map_values(|x: String| x@) == shells_to_register_spec(ev, sv.take(i as int)),
        decreases shells.len() - i,
    {
        let s = shells[i].as_str();
        let sc = str_to_chars(s);
        assert(sv.take(i + 1).drop_last() =~= sv.take(i as int));
        assert(sv.take(i + 1).last() == s@);
        assert(ev.take(existing.len() as int) =~= ev);
        let skip = contains_str(existing, s, existing.len()) || contains_str(shells, s, i)
            || ends_with_chars(&sc, &nologin) || ends_with_chars(&sc, &nofalse);
        if !skip {
            let ghost prev = r@.map_values(|x: String| x@);
            r.push(s.to_owned());
            assert(r@.map_values(|x: String| x@) =~= prev.push(s@));
        }
        i = i + 1;
    }
    assert(sv.take(i as int) =~= sv);
    r
}

/// Unhooking an entry that hooking changed gives back the entry with the
/// shell's text after its root joined to `/`: a path with the shell's
/// components, and the shell itself when it has no `/` or `.` pieces at its
/// ends.
pub proof fn lemma_unhook_undoes_hook(m: PasswdModel)
    requires
        hook_update(m) is Ok,
        hook_update(m)->Ok_0 is Some,
    ensures
        unhook_update(hook_update(m)->Ok_0->Some_0) == Ok::<Option<PasswdModel>, AliasError>(
            Some(with_shell(m, path_join("/"@, raw_rest(m.shell, 0)))),
        ),
        components(path_join("/"@, raw_rest(m.shell, 0))) == components(m.shell),
        ends_clean(m.shell) ==> unhook_update(hook_update(m)->Ok_0->Some_0) == Ok::<
            Option<PasswdModel>,
            AliasError,
        >(Some(m)),
{
    lemma_alias_round_trip(m.shell);
    let h = with_shell(m, link_path_for(m.shell));
    assert(with_shell(h, path_join("/"@, raw_rest(m.shell, 0))) == with_shell(m, path_join("/"@, raw_rest(m.shell, 0))));
    if ends_clean(m.shell) {
        assert(with_shell(m, m.shell) == m);
    }
}

// ---------------------------------------------------------------------------
// Hooking then unhooking a whole passwd text.
// ---------------------------------------------------------------------------

/// The entry a line reads as.
pub open spec fn entry_of(l: Seq<char>) -> PasswdModel {
    deserialize_spec(l)->Ok_0
}

/// The entry hooking makes of the entry of a line.
pub open spec fn hooked_entry(l: Seq<char>) -> PasswdModel {
    with_shell(entry_of(l), link_path_for(entry_of(l).shell))
}

/// A line that hooking changes and unhooking gives back: an entry written
/// the way entries are written, whose shell is an absolute path outside the
/// alias directory with no `/` or `.` pieces at its ends.
pub open spec fn round_trip_line(l: Seq<char>) -> bool {
    &&& deserialize_spec(l) is Ok
    &&& serialize_spec(entry_of(l)) == l
    &&& has_root(entry_of(l).shell)
    &&& !path_starts_with(entry_of(l).shell, alias_dir())
    &&& ends_clean(entry_of(l).shell)
}

/// A line with no line break, not ending with `\r`.
pub open spec fn bare_line(l: Seq<char>) -> bool {
    !l.contains('\n') && !(l.len() > 0 && l.last() == '\r')
}

/// When every line reads as an entry whose update is given by `f`, the
/// updates are those `f` gives.
proof fn lemma_updates_all(ls: Seq<Seq<char>>, hook: bool, f: spec_fn(Seq<char>) -> Option<PasswdModel>)
    requires
        forall|i: int|
            0 <= i < ls.len() ==> deserialize_spec(#[trigger] ls[i]) is Ok && (if hook {
                hook_update(entry_of(ls[i]))
            } else {
                unhook_update(entry_of(ls[i]))
            }) == Ok::<Option<PasswdModel>, AliasError>(f(ls[i])),
    ensures
        shell_updates(ls, hook) == Ok::<Seq<Option<PasswdModel>>, ShellHookError>(ls.map_values(f)),
    decreases ls.len(),
{
    if ls.len() > 0 {
        let rest = ls.drop_first();
        assert forall|i: int| 0 <= i < rest.len() implies deserialize_spec(#[trigger] rest[i]) is Ok && (if hook {
            hook_update(entry_of(rest[i]))
        } else {
            unhook_update(entry_of(rest[i]))
        }) == Ok::<Option<PasswdModel>, AliasError>(f(rest[i])) by {
            assert(rest[i] == ls[i + 1]);
        }
        lemma_updates_all(rest, hook, f);
        assert(deserialize_spec(ls[0]) is Ok);
        assert(deserialize_spec(ls[0]) == Ok::<PasswdModel, PasswdError>(entry_of(ls[0])));
        assert(ls.map_values(f) =~= seq![f(ls[0])] + rest.map_values(f));
    } else {
        assert(ls.map_values(f) =~= Seq::<Option<PasswdModel>>::empty());
    }
}

/// Two rewrites that write the same text line by line write the same text.
proof fn lemma_rewrite_pointwise(
    a: Seq<Seq<char>>,
    ua: Seq<Option<PasswdModel>>,
    b: Seq<Seq<char>>,
    ub: Seq<Option<PasswdModel>>,
)
    requires
        a.len() == ua.len(),
        b.len() == ub.len(),
        a.len() == b.len(),
        forall|i: int| 0 <= i < a.len() ==> rewritten_line(#[trigger] a[i], ua[i]) == rewritten_line(b[i], ub[i]),
    ensures
        rewrite_spec(a, ua) == rewrite_spec(b, ub),
    decreases a.len(),
{
    if a.len() > 0 {
        assert forall|i: int| 0 <= i < a.len() - 1 implies rewritten_line(#[trigger] a.drop_first()[i], ua.drop_first()[i])
            == rewritten_line(b.drop_first()[i], ub.drop_first()[i]) by {
            assert(a.drop_first()[i] == a[i + 1]);
        }
        lemma_rewrite_pointwise(a.drop_first(), ua.drop_first(), b.drop_first(), ub.drop_first());
        assert(rewritten_line(a[0], ua[0]) == rewritten_line(b[0], ub[0]));
    }
}

/// The lines of a text written line by line, with nothing replaced, are the
/// lines written, when none holds a line break or ends with `\r`.
proof fn lemma_lines_of_written(xs: Seq<Seq<char>>)
    requires
        forall|i: int| 0 <= i < xs.len() ==> bare_line(#[trigger] xs[i]),
    ensures
        lines_spec(rewrite_spec(xs, no_updates(xs.len()))) == xs,
    decreases xs.len(),
{
    let n = xs.len();
    if n > 0 {
        let rest_xs = xs.drop_first();
        assert forall|i: int| 0 <= i < rest_xs.len() implies bare_line(#[trigger] rest_xs[i]) by {
            assert(rest_xs[i] == xs[i + 1]);
        }
        lemma_lines_of_written(rest_xs);
        assert(no_updates(n).drop_first() =~= no_updates((n - 1) as nat));
        assert(no_updates(n)[0] is None);
        let rest = rewrite_spec(rest_xs, no_updates((n - 1) as nat));
        let x = xs[0];
        assert(bare_line(x));
        let text = rewrite_spec(xs, no_updates(n));
        assert(text == x + seq!['\n'] + rest);
        lemma_first_index_absent(x, '\n');
        lemma_first_index_concat(x, '\n', rest);
        assert(first_index(text, '\n') == x.len());
        assert(text.take(x.len() as int) =~= x);
        assert(text.skip(x.len() as int + 1) =~= rest);
        assert(strip_cr(x) == x);
        assert(lines_spec(text) == seq![strip_cr(text.take(x.len() as int))] + lines_spec(text.skip(x.len() as int + 1)));
        assert(lines_spec(text) =~= xs);
    } else {
        assert(lines_spec(Seq::<char>::empty()) =~= xs);
    }
}

/// The lines of a text that ends with a line break and holds no `\r\n`
/// hold no line break and do not end with `\r`.
proof fn lemma_clean_lines(s: Seq<char>)
    requires
        s.len() == 0 || s.last() == '\n',
        no_crlf(s),
    ensures
        forall|i: int| 0 <= i < lines_spec(s).len() ==> bare_line(#[trigger] lines_spec(s)[i]),
    decreases s.len(),
{
    if s.len() > 0 {
        lemma_first_index(s, '\n');
        let i = first_index(s, '\n');
        assert(i >= 0) by {
            if i < 0 {
                assert(s[s.len() - 1] != '\n');
            }
        }
        let head = s.take(i);
        let rest = s.skip(i + 1);
        assert(!head.contains('\n')) by {
            if head.contains('\n') {
                let j = choose|j: int| 0 <= j < head.len() && head[j] == '\n';
                assert(s[j] == '\n');
            }
        }
        if head.len() > 0 && head.last() == '\r' {
            assert(s[i - 1] == '\r' && s[i] == '\n');
            assert(!(s[i - 1] == '\r' && s[i - 1 + 1] == '\n'));
        }
        assert(strip_cr(head) == head);
        assert forall|k: int| 0 <= k < rest.len() - 1 implies !(#[trigger] rest[k] == '\r' && rest[k + 1] == '\n') by {
            assert(rest[k] == s[k + i + 1]);
            assert(rest[k + 1] == s[k + i + 1 + 1]);
        }
        if rest.len() > 0 {
            assert(rest.last() == s.last());
        }
        lemma_clean_lines(rest);
        let ls = lines_spec(s);
        assert(ls == seq![head] + lines_spec(rest));
        assert forall|k: int| 0 <= k < ls.len() implies bare_line(#[trigger] ls[k]) by {
            if k > 0 {
                assert(ls[k] == lines_spec(rest)[k - 1]);
            }
        }
    }
}

/// For one line that hooking changes and unhooking gives back: hooking
/// writes a bare line that reads as the hooked entry, unhooking that entry
/// gives the line's entry back, and both rewrites write what they should.
proof fn lemma_round_trip_line(l: Seq<char>)
    requires
        round_trip_line(l),
        bare_line(l),
    ensures
        hook_update(entry_of(l)) == Ok::<Option<PasswdModel>, AliasError>(Some(hooked_entry(l))),
        bare_line(serialize_spec(hooked_entry(l))),
        deserialize_spec(serialize_spec(hooked_entry(l))) == Ok::<PasswdModel, PasswdError>(hooked_entry(l)),
        unhook_update(hooked_entry(l)) == Ok::<Option<PasswdModel>, AliasError>(Some(entry_of(l))),
        rewritten_line(serialize_spec(hooked_entry(l)), Some(entry_of(l))) == rewritten_line(l, None),
{
    let m = entry_of(l);
    let h = hooked_entry(l);
    reveal_strlit("/");
    reveal_strlit("/opt/distrod/alias");
    lemma_alias_dir_shape();
    lemma_raw_round_trip(alias_dir(), m.shell);
    let t = raw_rest(m.shell, 0);
    assert(path_join("/"@, t) == seq!['/'] + t);
    assert(m.shell == seq!['/'] + t);
    assert(link_path_for(m.shell) == alias_dir() + seq!['/'] + t);
    assert(link_path_for(m.shell) =~= alias_dir() + m.shell);
    // The fields of the entry are pieces of the line, so they hold no `:`.
    let f = split_spec(l, ':');
    lemma_split_pieces_no_sep(l, ':');
    assert(!f[0].contains(':') && !f[1].contains(':') && !f[4].contains(':') && !f[5].contains(':') && !f[6].contains(':'));
    assert(!alias_dir().contains(':')) by {
        if alias_dir().contains(':') {
            let j = choose|j: int| 0 <= j < alias_dir().len() && alias_dir()[j] == ':';
        }
    }
    assert(!alias_dir().contains('\n')) by {
        if alias_dir().contains('\n') {
            let j = choose|j: int| 0 <= j < alias_dir().len() && alias_dir()[j] == '\n';
        }
    }
    let link = alias_dir() + m.shell;
    assert(!link.contains(':')) by {
        if link.contains(':') {
            let j = choose|j: int| 0 <= j < link.len() && link[j] == ':';
            if j < alias_dir().len() {
                assert(alias_dir()[j] == ':');
            } else {
                assert(m.shell[j - alias_dir().len()] == ':');
            }
        }
    }
    assert(fields_have_no_colon(h));
    lemma_serialize_deserialize(h);
    // The hooked line is the line with the alias directory before the shell.
    let line = serialize_spec(m);
    let hooked = serialize_spec(h);
    let prefix = line.take(line.len() - m.shell.len());
    assert(line =~= prefix + m.shell);
    assert(hooked =~= prefix + link);
    assert(!hooked.contains('\n')) by {
        if hooked.contains('\n') {
            let j = choose|j: int| 0 <= j < hooked.len() && hooked[j] == '\n';
            if j < prefix.len() {
                assert(l[j] == '\n');
            } else if j < prefix.len() + alias_dir().len() {
                assert(alias_dir()[j - prefix.len()] == '\n');
            } else {
                assert(l[j - alias_dir().len()] == '\n');
            }
        }
    }
    assert(hooked.last() == l.last());
    lemma_alias_round_trip(m.shell);
    lemma_unhook_undoes_hook(m);
    assert(with_shell(m, m.shell) == m);
}

/// Hooking the shells of a passwd text and then unhooking those of the text
/// written gives the text back, when every line is an entry written the way
/// entries are written, whose shell is an absolute path outside the alias
/// directory with no `/` or `.` pieces at its ends, and the text ends with a
/// line break (or is empty) and holds no `\r\n`.
pub proof fn lemma_disable_undoes_enable(c: Seq<char>)
    requires
        c.len() == 0 || c.last() == '\n',
        no_crlf(c),
        forall|i: int| 0 <= i < lines_spec(c).len() ==> round_trip_line(#[trigger] lines_spec(c)[i]),
    ensures
        shell_updates(lines_spec(c), true) matches Ok(us) && ({
            let hooked = rewrite_spec(lines_spec(c), us);
            shell_updates(lines_spec(hooked), false) matches Ok(back) && rewrite_spec(lines_spec(hooked), back) == c
        }),
{
    let ls = lines_spec(c);
    let n = ls.len();
    lemma_clean_lines(c);
    assert forall|i: int| 0 <= i < n implies #[trigger] round_trip_line(ls[i]) && bare_line(ls[i]) by {}
    assert forall|i: int| 0 <= i < n implies hook_update(entry_of(#[trigger] ls[i])) == Ok::<Option<PasswdModel>, AliasError>(
        Some(hooked_entry(ls[i])),
    ) by {
        lemma_round_trip_line(ls[i]);
    }
    let f = |l: Seq<char>| Some(hooked_entry(l));
    lemma_updates_all(ls, true, f);
    let us = ls.map_values(f);
    let hs = ls.map_values(|l: Seq<char>| serialize_spec(hooked_entry(l)));
    assert forall|i: int| 0 <= i < n implies rewritten_line(#[trigger] ls[i], us[i]) == rewritten_line(hs[i], no_updates(n)[i]) by {}
    lemma_rewrite_pointwise(ls, us, hs, no_updates(n));
    let hooked = rewrite_spec(ls, us);
    assert forall|i: int| 0 <= i < hs.len() implies bare_line(#[trigger] hs[i]) by {
        lemma_round_trip_line(ls[i]);
    }
    lemma_lines_of_written(hs);
    assert(lines_spec(hooked) == hs);
    let g = |x: Seq<char>| match unhook_update(entry_of(x)) {
        Ok(u) => u,
        Err(_) => None,
    };
    assert forall|i: int| 0 <= i < hs.len() implies deserialize_spec(#[trigger] hs[i]) is Ok && unhook_update(
        entry_of(hs[i]),
    ) == Ok::<Option<PasswdModel>, AliasError>(g(hs[i])) by {
        lemma_round_trip_line(ls[i]);
        assert(entry_of(hs[i]) == hooked_entry(ls[i]));
    }
    lemma_updates_all(hs, false, g);
    let back = hs.map_values(g);
    assert forall|i: int| 0 <= i < n implies rewritten_line(#[trigger] hs[i], back[i]) == rewritten_line(ls[i], no_updates(n)[i]) by {
        lemma_round_trip_line(ls[i]);
        assert(entry_of(hs[i]) == hooked_entry(ls[i]));
        assert(back[i] == Some(entry_of(ls[i])));
    }
    lemma_rewrite_pointwise(hs, back, ls, no_updates(n));
    lemma_rewrite_unchanged(c);
}

} // verus!
