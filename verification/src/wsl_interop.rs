//! Where WSL mounts the Windows drives, and which `PATH` entries lead there.

use vstd::prelude::*;
use crate::envfile::{parse_path_spec, path_iter_spec, PathVariable};
use crate::mount_info::MountEntry;
use crate::paths::{components, has_root, components_exec, has_root_exec};
use crate::text::{extend_chars, extend_str, has_prefix, join_chars, join_spec, seq_to_string, starts_with_chars, str_eq, str_to_chars};

verus! {

/// What `str::to_uppercase` gives for a text.
pub uninterp spec fn uppercase(s: Seq<char>) -> Seq<char>;

/// `str::to_uppercase`. The contract names the result; the Unicode case
/// mapping itself is left unsaid.
#[verifier::external_body]
fn to_uppercase(s: &str) -> (r: String)
    ensures
        r@ == uppercase(s@),
{
    s.to_uppercase()
}

/// How a Windows drive is written in a mount source: `C:\`.
pub open spec fn drive_prefix(letter: Seq<char>) -> Seq<char> {
    uppercase(letter) + seq![':', '\\']
}

/// The entry mounts the drive: a 9p mount whose source is the drive
/// (Windows 10), or a `drvfs` mount with a `path=` option naming it
/// (Windows 11).
pub open spec fn mounts_drive(e: MountEntry, letter: Seq<char>) -> bool {
    &&& e.fstype@ == "9p"@
    &&& (has_prefix(e.source@, drive_prefix(letter)) || (e.source@ == "drvfs"@
        && e.attributes@.map_values(|a: String| a@).contains("path="@ + drive_prefix(letter))))
}

/// Where the first entry that mounts the drive is mounted.
pub open spec fn drive_path_in(es: Seq<MountEntry>, letter: Seq<char>) -> Option<Seq<char>>
    decreases es.len(),
{
    if es.len() == 0 {
        None
    } else if mounts_drive(es[0], letter) {
        Some(es[0].path@)
    } else {
        drive_path_in(es.drop_first(), letter)
    }
}

/// Whether some option of `attrs` is `opt`.
fn has_attribute(attrs: &Vec<String>, opt: &str) -> (r: bool)
    ensures
        r == attrs@.map_values(|a: String| a@).contains(opt@),
{
    let ghost av = attrs@.map_values(|a: String| a@);
    let mut i: usize = 0;
    while i < attrs.len()
        invariant
            i <= attrs.len(),
            av == attrs@.map_values(|a: String| a@),
            forall|j: int| 0 <= j < i ==> av[j] != opt@,
        decreases attrs.len() - i,
    {
        if str_eq(attrs[i].as_str(), opt) {
            assert(av[i as int] == opt@);
            return true;
        }
        i = i + 1;
    }
    false
}

/// Where the Windows drive `drive_letter` is mounted, among `entries`.
pub fn get_wsl_drive_path(entries: &Vec<MountEntry>, drive_letter: &str) -> (r: Option<String>)
    ensures
        match drive_path_in(entries@, drive_letter@) {
            Some(p) => (r matches Some(s) && s@ == p),
            None => r is None,
        },
{
    let upper = to_uppercase(drive_letter);
    let mut prefix: Vec<char> = str_to_chars(upper.as_str());
    prefix.push(':');
    prefix.push('\\');
    assert(prefix@ =~= drive_prefix(drive_letter@));
    let mut opt: Vec<char> = str_to_chars("path=");
    extend_chars(&mut opt, &prefix);
    let opt = seq_to_string(&opt);
    let mut i: usize = 0;
    assert(entries@.skip(0) =~= entries@);
    while i < entries.len()
        invariant
            i <= entries.len(),
            prefix@ == drive_prefix(drive_letter@),
            opt@ == "path="@ + drive_prefix(drive_letter@),
            drive_path_in(entries@, drive_letter@) == drive_path_in(entries@.skip(i as int), drive_letter@),
        decreases entries.len() - i,
    {
        let e = &entries[i];
        let ghost rest = entries@.skip(i as int);
        assert(rest[0] == entries@[i as int]);
        assert(rest.drop_first() =~= entries@.skip(i + 1));
        let source = str_to_chars(e.source.as_str());
        let found = str_eq(e.fstype.as_str(), "9p") && (starts_with_chars(&source, &prefix) || (str_eq(
            e.source.as_str(),
            "drvfs",
        ) && has_attribute(&e.attributes, opt.as_str())));
        if found {
            return Some(e.path.as_str().to_owned());
        }
        i = i + 1;
    }
    None
}

/// The parent of a path (`Path::parent`): its components but the last, with
/// its root if it has one; `None` when it has no component.
pub open spec fn path_parent(p: Seq<char>) -> Option<Seq<char>> {
    let cs = components(p);
    if cs.len() == 0 {
        None
    } else if has_root(p) {
        Some(seq!['/'] + join_spec(cs.drop_last(), '/'))
    } else {
        Some(join_spec(cs.drop_last(), '/'))
    }
}

/// The directory the Windows drives are mounted in, given where the C drive
/// is: its parent, or `/`.
pub open spec fn drive_mount_point(c_drive: Seq<char>) -> Seq<char> {
    match path_parent(c_drive) {
        Some(p) => p,
        None => "/"@,
    }
}

/// The parent of a path (`Path::parent`), `None` when it has no component.
pub fn get_wsl_drive_mount_point_parent(c: &str) -> (r: Option<String>)
    ensures
        match path_parent(c@) {
            Some(q) => (r matches Some(s) && s@ == q),
            None => r is None,
        },
{
    let cc = str_to_chars(c);
    let cs = components_exec(&cc);
    if cs.len() == 0 {
        return None;
    }
    let mut parent_cs: Vec<Vec<char>> = Vec::new();
    let mut k: usize = 0;
    let ghost csv = cs@.map_values(|x: Vec<char>| x@);
    while k + 1 < cs.len()
        invariant
            k + 1 <= cs.len(),
            csv == cs@.map_values(|x: Vec<char>| x@),
            parent_cs@.map_values(|x: Vec<char>| x@) == csv.take(k as int),
        decreases cs.len() - k,
    {
        let ghost prev = parent_cs@.map_values(|x: Vec<char>| x@);
        let mut piece: Vec<char> = Vec::new();
        extend_chars(&mut piece, &cs[k]);
        parent_cs.push(piece);
        assert(parent_cs@.map_values(|x: Vec<char>| x@) =~= prev.push(csv[k as int]));
        assert(csv.take(k + 1) =~= csv.take(k as int).push(csv[k as int]));
        k = k + 1;
    }
    assert(csv.take(k as int) =~= csv.drop_last());
    let joined = join_chars(&parent_cs, '/');
    let mut out: Vec<char> = Vec::new();
    if has_root_exec(c) {
        out.push('/');
    }
    extend_chars(&mut out, &joined);
    assert(Some(out@) == path_parent(c@));
    Some(seq_to_string(&out))
}

/// The directory the Windows drives are mounted in, given where the C drive
/// is mounted; `None` when it is not.
pub fn get_wsl_drive_mount_point(c_drive: Option<&str>) -> (r: Option<String>)
    ensures
        match c_drive {
            None => r is None,
            Some(c) => (r matches Some(s) && s@ == drive_mount_point(c@)),
        },
{
    let c = match c_drive {
        None => {
            return None;
        },
        Some(c) => c,
    };
    match get_wsl_drive_mount_point_parent(c) {
        Some(p) => Some(p),
        None => Some("/".to_owned()),
    }
}

/// The entries of a `PATH` value that lie in the directory of the Windows
/// drives (plain text prefix), in order.
pub open spec fn wsl_paths_spec(paths: Seq<Seq<char>>, mount_point: Seq<char>) -> Seq<Seq<char>>
    decreases paths.len(),
{
    if paths.len() == 0 {
        Seq::empty()
    } else {
        let r = wsl_paths_spec(paths.drop_last(), mount_point);
        if has_prefix(paths.last(), mount_point) {
            r.push(paths.last())
        } else {
            r
        }
    }
}

/// The entries of the `PATH` value `path` that lead into the Windows drives
/// mounted under `mount_point`.
pub fn collect_wsl_paths(path: &str, mount_point: &str) -> (r: Vec<String>)
    ensures
        r@.map_values(|s: String| s@) == wsl_paths_spec(path_iter_spec(parse_path_spec(path@)), mount_point@),
{
    let pv = PathVariable::parse(path);
    let entries = pv.iter();
    let ghost ev = entries@.map_values(|s: String| s@);
    let mp = str_to_chars(mount_point);
    let mut r: Vec<String> = Vec::new();
    let mut i: usize = 0;
    assert(ev.take(0) =~= Seq::<Seq<char>>::empty());
    while i < entries.len()
        invariant
            i <= entries.len(),
            ev == entries@.map_values(|s: String| s@),
            mp@ == mount_point@,
            r@.map_values(|s: String| s@) == wsl_paths_spec(ev.take(i as int), mount_point@),
        decreases entries.len() - i,
    {
        let ec = str_to_chars(entries[i].as_str());
        assert(ev.take(i + 1).drop_last() =~= ev.take(i as int));
        assert(ev.take(i + 1).last() == ev[i as int]);
        if starts_with_chars(&ec, &mp) {
            let ghost prev = r@.map_values(|s: String| s@);
            r.push(entries[i].as_str().to_owned());
            assert(r@.map_values(|s: String| s@) =~= prev.push(ev[i as int]));
        }
        i = i + 1;
    }
    assert(ev.take(i as int) =~= ev);
    r
}

} // verus!
