//! Decisions of the container prototype command: reading `/proc/mounts`,
//! which WSL directories and Windows drives to bind into the new root, and
//! in which order to unmount the host's mounts.

use vstd::prelude::*;
use crate::paths::{components, has_root, path_join, path_starts_with, path_starts_with_exec, join_path, strip_path_prefix, path_strip_prefix};
use crate::text::{split_spec, split_str, str_eq, str_to_chars, seq_to_string};
use crate::wsl_interop::path_parent;

verus! {

/// The mount point and the type of a line of `/proc/mounts`: its second and
/// third space-separated fields; `None` when it has fewer than three.
pub open spec fn mount_line_fields(line: Seq<char>) -> Option<(Seq<char>, Seq<char>)> {
    let f = split_spec(line, ' ');
    if f.len() >= 3 {
        Some((f[1], f[2]))
    } else {
        None
    }
}

/// The mount point and the type of a line of `/proc/mounts`.
pub fn parse_mount_line(line: &str) -> (r: Option<(String, String)>)
    ensures
        match mount_line_fields(line@) {
            Some((p, t)) => (r matches Some((p2, t2)) && p2@ == p && t2@ == t),
            None => r is None,
        },
{
    let fields = split_str(line, ' ');
    if fields.len() < 3 {
        return None;
    }
    assert(fields@[1]@ == split_spec(line@, ' ')[1]);
    assert(fields@[2]@ == split_spec(line@, ' ')[2]);
    Some((fields[1].to_owned(), fields[2].to_owned()))
}

/// The init command of a container: the one given, else systemd for the
/// multi-user target.
pub fn init_command(init: Option<Vec<String>>) -> (r: Vec<String>)
    ensures
        match init {
            Some(v) => r@ == v@,
            None => r@.map_values(|s: String| s@) == seq!["/sbin/init"@, "--unit=multi-user.target"@],
        },
{
    match init {
        Some(v) => v,
        None => {
            let mut r: Vec<String> = Vec::new();
            r.push("/sbin/init".to_owned());
            r.push("--unit=multi-user.target".to_owned());
            assert(r@.map_values(|s: String| s@) =~= seq!["/sbin/init"@, "--unit=multi-user.target"@]);
            r
        },
    }
}

// ---------------------------------------------------------------------------
// Binding the WSL directories, one step at a time.
// ---------------------------------------------------------------------------

/// The WSL directories bound into the new root, each at its own path.
pub fn wsl_special_dirs() -> (r: Vec<&'static str>)
    ensures
        r@ == seq!["/init", "/proc/sys/fs/binfmt_misc", "/run", "/run/lock", "/run/shm", "/run/user", "/mnt/wsl", "/sys"],
{
    vec![
        "/init",
        "/proc/sys/fs/binfmt_misc",
        "/run",
        "/run/lock",
        "/run/shm",
        "/run/user",
        "/mnt/wsl",
        "/sys",
    ]
}

/// How many `/` a path holds.
pub open spec fn slash_count(s: Seq<char>) -> nat
    decreases s.len(),
{
    if s.len() == 0 {
        0
    } else {
        slash_count(s.drop_last()) + if s.last() == '/' {
            1nat
        } else {
            0nat
        }
    }
}

/// The path after `n` steps up (`PathBuf::pop`, which leaves a path without
/// parent as it is).
pub open spec fn pop_n(p: Seq<char>, n: nat) -> Seq<char>
    decreases n,
{
    if n == 0 {
        p
    } else {
        match path_parent(p) {
            Some(q) => pop_n(q, (n - 1) as nat),
            None => p,
        }
    }
}

/// Where the old root's copy of the WSL directory `bind` is, the old root
/// being at `root`: `root` joined with `bind` without its leading `/`.
pub open spec fn special_dir_source(root: Seq<char>, bind: Seq<char>) -> Seq<char> {
    path_join(root, bind.drop_first())
}

/// The old root after handling `bind`: when the directory existed (and was
/// bound), as many steps up as `bind` has `/`, which is back where it was;
/// when it did not, the path stays joined with it, and the next directories
/// are looked for under it.
pub open spec fn root_after_special_dir(source: Seq<char>, bind: Seq<char>, existed: bool) -> Seq<char> {
    if existed {
        pop_n(source, slash_count(bind))
    } else {
        source
    }
}

/// Where the old root's copy of the WSL directory `bind` is.
pub fn special_dir_bind_source(root: &str, bind: &str) -> (r: String)
    requires
        bind@.len() > 0,
    ensures
        r@ == special_dir_source(root@, bind@),
{
    let b = str_to_chars(bind);
    let rest = crate::text::chars_to_string(&b, 1, b.len());
    assert(rest@ =~= bind@.drop_first());
    join_path(root, rest.as_str())
}

/// The parent of a path, if it has one.
fn parent_exec(p: &str) -> (r: Option<String>)
    ensures
        match path_parent(p@) {
            Some(q) => (r matches Some(s) && s@ == q),
            None => r is None,
        },
{
    crate::wsl_interop::get_wsl_drive_mount_point_parent(p)
}

/// The old root after handling `bind`, whose copy is at `source`.
pub fn old_root_after_special_dir(source: &str, bind: &str, existed: bool) -> (r: String)
    ensures
        r@ == root_after_special_dir(source@, bind@, existed),
{
    if !existed {
        return source.to_owned();
    }
    let b = str_to_chars(bind);
    let mut n: usize = 0;
    let mut i: usize = 0;
    assert(b@.take(0) =~= Seq::<char>::empty());
    while i < b.len()
        invariant
            i <= b.len(),
            b@ == bind@,
            n == slash_count(b@.take(i as int)),
            n <= i,
        decreases b.len() - i,
    {
        assert(b@.take(i + 1).drop_last() =~= b@.take(i as int));
        if b[i] == '/' {
            n = n + 1;
        }
        i = i + 1;
    }
    assert(b@.take(i as int) =~= bind@);
    let mut p: String = source.to_owned();
    let mut k: usize = 0;
    while k < n
        invariant
            k <= n,
            existed,
            n == slash_count(bind@),
            pop_n(source@, n as nat) == pop_n(p@, (n - k) as nat),
        decreases n - k,
    {
        match parent_exec(p.as_str()) {
            Some(q) => {
                p = q;
            },
            None => {
                assert(pop_n(p@, (n - k) as nat) == p@);
                return p;
            },
        }
        k = k + 1;
    }
    p
}

// ---------------------------------------------------------------------------
// Binding the Windows drives.
// ---------------------------------------------------------------------------

/// Two paths are the same path (`Path` equality): same root, same components.
pub open spec fn same_path(a: Seq<char>, b: Seq<char>) -> bool {
    path_starts_with(a, b) && components(a).len() == components(b).len()
}

/// Where a mount of the old root is bound inside the new root: a 9p mount
/// (a Windows drive) under `old_root`, but its `/init`, goes to the same
/// place relative to `/`.
pub open spec fn drive_bind_target(old_root: Seq<char>, path: Seq<char>, fstype: Seq<char>) -> Option<Seq<char>> {
    if !path_starts_with(path, old_root) || fstype != "9p"@ || same_path(path, path_join(old_root, "init"@)) {
        None
    } else {
        match path_strip_prefix(path, old_root) {
            Some(rel) => Some(path_join("/"@, rel)),
            None => None,
        }
    }
}

/// Whether two paths are the same path.
fn same_path_exec(a: &str, b: &str) -> (r: bool)
    ensures
        r == same_path(a@, b@),
{
    if !path_starts_with_exec(a, b) {
        return false;
    }
    let ac = str_to_chars(a);
    let bc = str_to_chars(b);
    crate::paths::components_exec(&ac).len() == crate::paths::components_exec(&bc).len()
}

/// Where the mount at `path` of type `fstype` is bound inside the new root, if it is.
pub fn drive_bind(old_root: &str, path: &str, fstype: &str) -> (r: Option<String>)
    ensures
        match drive_bind_target(old_root@, path@, fstype@) {
            Some(t) => (r matches Some(s) && s@ == t),
            None => r is None,
        },
{
    if !path_starts_with_exec(path, old_root) || !str_eq(fstype, "9p") {
        return None;
    }
    let init = join_path(old_root, "init");
    if same_path_exec(path, init.as_str()) {
        return None;
    }
    match strip_path_prefix(path, old_root) {
        Some(rel) => Some(join_path("/", rel.as_str())),
        None => None,
    }
}

/// The Windows drives to bind: for each mount `(path, fstype)` that
/// `drive_bind_target` picks, in order, the path and where it is bound.
pub open spec fn drive_binds_spec(old_root: Seq<char>, mounts: Seq<(Seq<char>, Seq<char>)>) -> Seq<(Seq<char>, Seq<char>)>
    decreases mounts.len(),
{
    if mounts.len() == 0 {
        Seq::empty()
    } else {
        let prev = drive_binds_spec(old_root, mounts.drop_last());
        let (path, fstype) = mounts.last();
        match drive_bind_target(old_root, path, fstype) {
            Some(t) => prev.push((path, t)),
            None => prev,
        }
    }
}

/// The Windows drives to bind, from the mounts given as (path, type), in
/// the order of the mounts.
pub fn drive_binds(old_root: &str, mounts: &Vec<(String, String)>) -> (r: Vec<(String, String)>)
    ensures
        r@.map_values(|b: (String, String)| (b.0@, b.1@)) == drive_binds_spec(
            old_root@,
            mounts@.map_values(|m: (String, String)| (m.0@, m.1@)),
        ),
{
    let ghost mv = mounts@.map_values(|m: (String, String)| (m.0@, m.1@));
    let mut r: Vec<(String, String)> = Vec::new();
    let mut i: usize = 0;
    assert(mv.take(0) =~= Seq::<(Seq<char>, Seq<char>)>::empty());
    while i < mounts.len()
        invariant
            i <= mounts.len(),
            mv == mounts@.map_values(|m: (String, String)| (m.0@, m.1@)),
            r@.map_values(|b: (String, String)| (b.0@, b.1@)) == drive_binds_spec(old_root@, mv.take(i as int)),
        decreases mounts.len() - i,
    {
        assert(mv.take(i + 1).drop_last() =~= mv.take(i as int));
        assert(mv.take(i + 1).last() == mv[i as int]);
        let ghost prev = r@.map_values(|b: (String, String)| (b.0@, b.1@));
        match drive_bind(old_root, mounts[i].0.as_str(), mounts[i].1.as_str()) {
            Some(t) => {
                r.push((mounts[i].0.as_str().to_owned(), t));
                assert(r@.map_values(|b: (String, String)| (b.0@, b.1@)) =~= prev.push((mv[i as int].0, r@[r.len() - 1].1@)));
            },
            None => {},
        }
        i = i + 1;
    }
    assert(mv.take(i as int) =~= mv);
    r
}

// ---------------------------------------------------------------------------
// Unmounting the host's mounts.
// ---------------------------------------------------------------------------

/// The length of a path in bytes.
pub open spec fn byte_len(p: Seq<char>) -> nat {
    vstd::utf8::encode_utf8(p).len()
}

/// How many of the paths are at least `n` bytes long.
pub open spec fn count_not_shorter(ps: Seq<Seq<char>>, n: nat) -> nat
    decreases ps.len(),
{
    if ps.len() == 0 {
        0
    } else {
        count_not_shorter(ps.drop_last(), n) + if byte_len(ps.last()) >= n {
            1nat
        } else {
            0nat
        }
    }
}

/// The paths longest first, paths of one length in the order they came (a
/// stable sort).
pub open spec fn sort_longest_first(ps: Seq<Seq<char>>) -> Seq<Seq<char>>
    decreases ps.len(),
{
    if ps.len() == 0 {
        Seq::empty()
    } else {
        let sorted = sort_longest_first(ps.drop_last());
        let p = ps.last();
        let k = count_not_shorter(sorted, byte_len(p));
        sorted.take(k as int).push(p) + sorted.skip(k as int)
    }
}

/// The paths are longest first.
pub open spec fn longest_first(ps: Seq<Seq<char>>) -> bool {
    forall|i: int, j: int| 0 <= i < j < ps.len() ==> byte_len(ps[i]) >= byte_len(ps[j])
}

/// The mounts to unmount, deepest first: those under `old_root` but
/// `old_root` itself, in the order of the stable sort by length.
pub open spec fn umount_order_spec(old_root: Seq<char>, paths: Seq<Seq<char>>) -> Seq<Seq<char>>
    decreases paths.len(),
{
    keep_under(old_root, sort_longest_first(paths))
}

/// The paths under `old_root`, but `old_root` itself, in order.
pub open spec fn keep_under(old_root: Seq<char>, ps: Seq<Seq<char>>) -> Seq<Seq<char>>
    decreases ps.len(),
{
    if ps.len() == 0 {
        Seq::empty()
    } else {
        let r = keep_under(old_root, ps.drop_last());
        let p = ps.last();
        if path_starts_with(p, old_root) && !same_path(p, old_root) {
            r.push(p)
        } else {
            r
        }
    }
}

proof fn lemma_longest_prefix(sorted: Seq<Seq<char>>, n: nat, k: int)
    requires
        longest_first(sorted),
        0 <= k <= sorted.len(),
        forall|i: int| 0 <= i < k ==> byte_len(sorted[i]) >= n,
        forall|i: int| k <= i < sorted.len() ==> byte_len(sorted[i]) < n,
    ensures
        count_not_shorter(sorted, n) == k,
    decreases sorted.len(),
{
    if sorted.len() > 0 {
        let init = sorted.drop_last();
        if k == sorted.len() {
            lemma_longest_prefix(init, n, k - 1);
        } else {
            lemma_longest_prefix(init, n, k);
        }
    }
}

/// The length of a string in bytes.
fn byte_len_exec(s: &str) -> (r: usize)
    ensures
        r == byte_len(s@),
{
    s.as_bytes().len()
}

/// The mount points to unmount from the new root, deepest first.
pub fn umount_order(old_root: &str, paths: &Vec<String>) -> (r: Vec<String>)
    ensures
        r@.map_values(|s: String| s@) == umount_order_spec(old_root@, paths@.map_values(|s: String| s@)),
{
    let ghost pv = paths@.map_values(|s: String| s@);
    let mut sorted: Vec<String> = Vec::new();
    let mut i: usize = 0;
    assert(pv.take(0) =~= Seq::<Seq<char>>::empty());
    assert(sorted@.map_values(|s: String| s@) =~= Seq::<Seq<char>>::empty());
    while i < paths.len()
        invariant
            i <= paths.len(),
            pv == paths@.map_values(|s: String| s@),
            sorted@.map_values(|s: String| s@) == sort_longest_first(pv.take(i as int)),
            longest_first(sorted@.map_values(|s: String| s@)),
        decreases paths.len() - i,
    {
        let p = paths[i].as_str();
        let n = byte_len_exec(p);
        let ghost sv = sorted@.map_values(|s: String| s@);
        let mut k: usize = 0;
        while k < sorted.len() && byte_len_exec(sorted[k].as_str()) >= n
            invariant
                k <= sorted.len(),
                sv == sorted@.map_values(|s: String| s@),
                longest_first(sv),
                n == byte_len(p@),
                forall|j: int| 0 <= j < k ==> byte_len(sv[j]) >= n,
            decreases sorted.len() - k,
        {
            k = k + 1;
        }
        proof {
            assert forall|j: int| k <= j < sv.len() implies byte_len(sv[j]) < n by {
                assert(byte_len(sv[k as int]) < n);
            }
            lemma_longest_prefix(sv, n as nat, k as int);
        }
        sorted.insert(k, p.to_owned());
        assert(sorted@.map_values(|s: String| s@) =~= sv.take(k as int).push(p@) + sv.skip(k as int));
        assert(pv.take(i + 1).drop_last() =~= pv.take(i as int));
        assert(pv.take(i + 1).last() == p@);
        i = i + 1;
    }
    assert(pv.take(i as int) =~= pv);
    let ghost sv = sorted@.map_values(|s: String| s@);
    let mut r: Vec<String> = Vec::new();
    let mut j: usize = 0;
    assert(sv.take(0) =~= Seq::<Seq<char>>::empty());
    while j < sorted.len()
        invariant
            j <= sorted.len(),
            sv == sorted@.map_values(|s: String| s@),
            r@.map_values(|s: String| s@) == keep_under(old_root@, sv.take(j as int)),
        decreases sorted.len() - j,
    {
        let p = sorted[j].as_str();
        assert(sv.take(j + 1).drop_last() =~= sv.take(j as int));
        assert(sv.take(j + 1).last() == p@);
        if path_starts_with_exec(p, old_root) && !same_path_exec(p, old_root) {
            let ghost prev = r@.map_values(|s: String| s@);
            r.push(p.to_owned());
            assert(r@.map_values(|s: String| s@) =~= prev.push(p@));
        }
        j = j + 1;
    }
    assert(sv.take(j as int) =~= sv);
    r
}

} // verus!
