//! What a distro launch decides: which WSL environment variables are safe to
//! hand to systemd, the kernel command line that carries them, where the
//! per-user scripts live, which mounts to bind, and how a new root
//! filesystem is adjusted (hostname, sudo's PAM file, distro detection).

use vstd::prelude::*;
use crate::container::HostPath;
use crate::envfile::{env_value, EnvFile};
use crate::mount_info::MountEntry;
use crate::paths::{path_join, path_starts_with, path_starts_with_exec};
use crate::patterns::{regex_is_match, regex_replace_all, regex_valid, Pattern};
use crate::template::{placeholder, Template};
use crate::text::{replace_spec, 
    contains_chars, contains_seq, decimal_chars, decimal_spec, extend_chars, extend_str, join_chars,
    join_spec, seq_to_string, split_spec, split_str, str_eq, str_to_chars,
};

verus! {

// ---------------------------------------------------------------------------
// Whether the current process runs inside the distro.
// ---------------------------------------------------------------------------

/// Where the host's root is mounted inside a running distro.
pub open spec fn distro_old_root() -> Seq<char> {
    "/mnt/distrod_root"@
}

/// Where the host's root is mounted inside a running distro.
pub fn distro_old_root_path() -> (r: &'static str)
    ensures
        r@ == distro_old_root(),
{
    "/mnt/distrod_root"
}

/// Some mount lies under `root`.
pub open spec fn some_mount_under(es: Seq<MountEntry>, root: Seq<char>) -> bool {
    exists|i: int| 0 <= i < es.len() && path_starts_with((#[trigger] es[i]).path@, root)
}

/// Whether some mount lies under the host's old root, which only a running
/// distro has; when the mount table could not be read (`None`), the answer
/// is yes.
pub fn is_inside_running_distro(mounts: Option<&Vec<MountEntry>>) -> (r: bool)
    ensures
        r == match mounts {
            None => true,
            Some(v) => some_mount_under(v@, distro_old_root()),
        },
{
    let v = match mounts {
        None => {
            return true;
        },
        Some(v) => v,
    };
    let mut i: usize = 0;
    while i < v.len()
        invariant
            i <= v.len(),
            mounts == Some(v),
            forall|j: int| 0 <= j < i ==> !path_starts_with((#[trigger] v@[j]).path@, distro_old_root()),
        decreases v.len() - i,
    {
        if path_starts_with_exec(v[i].path.as_str(), distro_old_root_path()) {
            assert(path_starts_with(v@[i as int].path@, distro_old_root()));
            assert(some_mount_under(v@, distro_old_root()));
            return true;
        }
        i = i + 1;
    }
    false
}

// ---------------------------------------------------------------------------
// WSL mounts bound into the distro.
// ---------------------------------------------------------------------------

/// The WSL files and directories bound into the distro at the same place,
/// each with whether it is a file; those missing on the host are skipped.
pub fn wsl_mountpoint_binds() -> (r: Vec<(&'static str, bool)>)
    ensures
        r@ == seq![("/init", true), ("/sys", false), ("/dev", false), ("/mnt/wsl", false), ("/run/WSL", false), ("/etc/wsl.conf", true), ("/etc/resolv.conf", true), ("/proc/sys/fs/binfmt_misc", false)],
{
    vec![
        ("/init", true),
        ("/sys", false),
        ("/dev", false),
        ("/mnt/wsl", false),
        ("/run/WSL", false),
        ("/etc/wsl.conf", true),
        ("/etc/resolv.conf", true),
        ("/proc/sys/fs/binfmt_misc", false),
    ]
}

/// The mount points of the Windows drives (9p mounts), but `/init`, which is
/// bound on its own.
pub open spec fn windows_drive_mounts(es: Seq<MountEntry>) -> Seq<Seq<char>>
    decreases es.len(),
{
    if es.len() == 0 {
        Seq::empty()
    } else {
        let r = windows_drive_mounts(es.drop_last());
        let e = es.last();
        if e.fstype@ == "9p"@ && e.path@ != "/init"@ {
            r.push(e.path@)
        } else {
            r
        }
    }
}

/// The mount points of the Windows drives, to be bound into the distro.
pub fn windows_drive_mount_paths(entries: &Vec<MountEntry>) -> (r: Vec<String>)
    ensures
        r@.map_values(|s: String| s@) == windows_drive_mounts(entries@),
{
    let mut r: Vec<String> = Vec::new();
    let mut i: usize = 0;
    assert(entries@.take(0) =~= Seq::<MountEntry>::empty());
    while i < entries.len()
        invariant
            i <= entries.len(),
            r@.map_values(|s: String| s@) == windows_drive_mounts(entries@.take(i as int)),
        decreases entries.len() - i,
    {
        let e = &entries[i];
        assert(entries@.take(i + 1).drop_last() =~= entries@.take(i as int));
        assert(entries@.take(i + 1).last() == entries@[i as int]);
        if str_eq(e.fstype.as_str(), "9p") && !str_eq(e.path.as_str(), "/init") {
            let ghost prev = r@.map_values(|s: String| s@);
            r.push(e.path.as_str().to_owned());
            assert(r@.map_values(|s: String| s@) =~= prev.push(e.path@));
        }
        i = i + 1;
    }
    assert(entries@.take(i as int) =~= entries@);
    r
}

// ---------------------------------------------------------------------------
// WSL environment variables handed to systemd.
// ---------------------------------------------------------------------------

/// The values of `WSL_INTEROP` deemed safe: the path of a WSL interop socket.
pub open spec fn wsl_interop_pattern() -> Seq<char> {
    "^/run/WSL/[0-9]+_interop$"@
}

/// The values of the other WSL variables deemed safe: letters, digits and `_./:-`.
pub open spec fn harmless_pattern() -> Seq<char> {
    "^([a-zA-Z0-9_./:]|-)*$"@
}

/// The pattern compiles and matches `text`.
pub open spec fn pattern_accepts(pattern: Seq<char>, text: Seq<char>) -> bool {
    regex_valid(pattern) && regex_is_match(pattern, text)
}

/// Whether `value` is a safe `WSL_INTEROP`, one that may be written to
/// `/etc/environment` and the kernel command line.
pub fn sanity_check_wsl_interop(value: &str) -> (r: bool)
    ensures
        r == pattern_accepts(wsl_interop_pattern(), value@),
{
    match Pattern::new("^/run/WSL/[0-9]+_interop$") {
        Some(p) => p.is_match(value),
        None => false,
    }
}

/// Whether `value` is a safe value of `WSLENV` or `WSL_DISTRO_NAME`.
pub fn sanity_check_general_wsl_envs(value: &str) -> (r: bool)
    ensures
        r == pattern_accepts(harmless_pattern(), value@),
{
    match Pattern::new("^([a-zA-Z0-9_./:]|-)*$") {
        Some(p) => p.is_match(value),
        None => false,
    }
}

/// The WSL variable `key` may be set to `value` for every user.
pub open spec fn sane_wsl_env(key: Seq<char>, value: Seq<char>) -> bool {
    if key == "WSL_INTEROP"@ {
        pattern_accepts(wsl_interop_pattern(), value)
    } else {
        pattern_accepts(harmless_pattern(), value)
    }
}

/// Whether the WSL variable `key` may be set to `value` for every user.
pub fn sanity_check_wsl_env(key: &str, value: &str) -> (r: bool)
    ensures
        r == sane_wsl_env(key@, value@),
{
    if str_eq(key, "WSL_INTEROP") {
        sanity_check_wsl_interop(value)
    } else {
        sanity_check_general_wsl_envs(value)
    }
}

/// The WSL variables that are set for every user and for systemd.
pub open spec fn system_env_names() -> Seq<Seq<char>> {
    seq!["WSL_INTEROP"@, "WSLENV"@, "WSL_DISTRO_NAME"@]
}

/// The WSL variables that are set for every user and for systemd.
pub fn get_names_of_wsl_interop_envs_for_system_envs() -> (r: Vec<String>)
    ensures
        r@.map_values(|s: String| s@) == system_env_names(),
{
    let mut r: Vec<String> = Vec::new();
    r.push("WSL_INTEROP".to_owned());
    r.push("WSLENV".to_owned());
    r.push("WSL_DISTRO_NAME".to_owned());
    assert(r@.map_values(|s: String| s@) =~= system_env_names());
    r
}

/// The WSL variables to set for every user and for systemd: those among
/// `envs` whose name is listed and whose value is safe, in order.
pub open spec fn system_envs_of(envs: Seq<(Seq<char>, Seq<char>)>) -> Seq<(Seq<char>, Seq<char>)>
    decreases envs.len(),
{
    if envs.len() == 0 {
        Seq::empty()
    } else {
        let r = system_envs_of(envs.drop_last());
        let e = envs.last();
        if system_env_names().contains(e.0) && sane_wsl_env(e.0, e.1) {
            r.push(e)
        } else {
            r
        }
    }
}

/// Whether `key` is one of the WSL variables set for every user.
fn is_system_env_name(key: &str) -> (r: bool)
    ensures
        r == system_env_names().contains(key@),
{
    let names = get_names_of_wsl_interop_envs_for_system_envs();
    let ghost nv = names@.map_values(|s: String| s@);
    let mut i: usize = 0;
    while i < names.len()
        invariant
            i <= names.len(),
            nv == names@.map_values(|s: String| s@),
            nv == system_env_names(),
            forall|j: int| 0 <= j < i ==> nv[j] != key@,
        decreases names.len() - i,
    {
        if str_eq(names[i].as_str(), key) {
            assert(nv[i as int] == key@);
            return true;
        }
        i = i + 1;
    }
    false
}

/// The WSL variables among `envs` to set for every user and for systemd.
pub fn collect_wsl_interop_envs_for_system_envs(envs: &Vec<(String, String)>) -> (r: Vec<(String, String)>)
    ensures
        r@.map_values(|e: (String, String)| (e.0@, e.1@)) == system_envs_of(
            envs@.map_values(|e: (String, String)| (e.0@, e.1@)),
        ),
{
    let ghost ev = envs@.map_values(|e: (String, String)| (e.0@, e.1@));
    let mut r: Vec<(String, String)> = Vec::new();
    let mut i: usize = 0;
    assert(ev.take(0) =~= Seq::<(Seq<char>, Seq<char>)>::empty());
    while i < envs.len()
        invariant
            i <= envs.len(),
            ev == envs@.map_values(|e: (String, String)| (e.0@, e.1@)),
            r@.map_values(|e: (String, String)| (e.0@, e.1@)) == system_envs_of(ev.take(i as int)),
        decreases envs.len() - i,
    {
        let key = envs[i].0.as_str();
        let value = envs[i].1.as_str();
        assert(ev.take(i + 1).drop_last() =~= ev.take(i as int));
        assert(ev.take(i + 1).last() == (key@, value@));
        if is_system_env_name(key) && sanity_check_wsl_env(key, value) {
            let ghost prev = r@.map_values(|e: (String, String)| (e.0@, e.1@));
            r.push((key.to_owned(), value.to_owned()));
            assert(r@.map_values(|e: (String, String)| (e.0@, e.1@)) =~= prev.push((key@, value@)));
        }
        i = i + 1;
    }
    assert(ev.take(i as int) =~= ev);
    r
}

/// The kernel argument that makes systemd set `key` to `value`.
pub open spec fn setenv_arg(key: Seq<char>, value: Seq<char>) -> Seq<char> {
    "systemd.setenv="@ + key + seq!['='] + value
}

/// The kernel argument that makes systemd set `key` to `value`.
pub fn env_to_systemd_setenv_arg(key: &str, value: &str) -> (r: String)
    ensures
        r@ == setenv_arg(key@, value@),
{
    let mut v: Vec<char> = Vec::new();
    extend_str(&mut v, "systemd.setenv=");
    extend_str(&mut v, key);
    v.push('=');
    extend_str(&mut v, value);
    assert(v@ =~= setenv_arg(key@, value@));
    seq_to_string(&v)
}

/// `b` without one final line break.
pub open spec fn without_final_newline(b: Seq<u8>) -> Seq<u8> {
    if b.len() > 0 && b.last() == 10u8 {
        b.drop_last()
    } else {
        b
    }
}

/// A space and the UTF-8 bytes of the kernel argument, for each variable.
pub open spec fn setenv_args_bytes(envs: Seq<(Seq<char>, Seq<char>)>) -> Seq<u8>
    decreases envs.len(),
{
    if envs.len() == 0 {
        Seq::empty()
    } else {
        setenv_args_bytes(envs.drop_last()) + seq![32u8] + vstd::utf8::encode_utf8(
            setenv_arg(envs.last().0, envs.last().1),
        )
    }
}

/// The kernel command line given to systemd: the current one with the
/// variables added as `systemd.setenv=` arguments, ended by a line break.
pub open spec fn cmdline_with_envs(cmdline: Seq<u8>, envs: Seq<(Seq<char>, Seq<char>)>) -> Seq<u8> {
    without_final_newline(cmdline) + setenv_args_bytes(envs) + seq![10u8]
}

/// The kernel command line `cmdline` with `envs` set for systemd.
pub fn get_cmdline_with_wsl_interop_envs_for_systemd(cmdline: &[u8], envs: &Vec<(String, String)>) -> (r: Vec<u8>)
    ensures
        r@ == cmdline_with_envs(cmdline@, envs@.map_values(|e: (String, String)| (e.0@, e.1@))),
{
    let ghost ev = envs@.map_values(|e: (String, String)| (e.0@, e.1@));
    let mut out: Vec<u8> = Vec::new();
    let n = if cmdline.len() > 0 && cmdline[cmdline.len() - 1] == 10u8 {
        cmdline.len() - 1
    } else {
        cmdline.len()
    };
    let mut i: usize = 0;
    while i < n
        invariant
            i <= n <= cmdline@.len(),
            out@ == cmdline@.take(i as int),
        decreases n - i,
    {
        out.push(cmdline[i]);
        assert(out@ =~= cmdline@.take(i + 1));
        i = i + 1;
    }
    assert(out@ =~= without_final_newline(cmdline@));
    let ghost base = out@;
    let mut k: usize = 0;
    assert(ev.take(0) =~= Seq::<(Seq<char>, Seq<char>)>::empty());
    while k < envs.len()
        invariant
            k <= envs.len(),
            ev == envs@.map_values(|e: (String, String)| (e.0@, e.1@)),
            out@ == base + setenv_args_bytes(ev.take(k as int)),
        decreases envs.len() - k,
    {
        let arg = env_to_systemd_setenv_arg(envs[k].0.as_str(), envs[k].1.as_str());
        let bytes = arg.as_str().as_bytes();
        let ghost before = out@;
        out.push(32u8);
        let mut j: usize = 0;
        while j < bytes.len()
            invariant
                j <= bytes@.len(),
                out@ == before.push(32u8) + bytes@.take(j as int),
            decreases bytes.len() - j,
        {
            out.push(bytes[j]);
            assert(out@ =~= before.push(32u8) + bytes@.take(j + 1));
            j = j + 1;
        }
        assert(bytes@.take(j as int) =~= bytes@);
        assert(ev.take(k + 1).drop_last() =~= ev.take(k as int));
        assert(ev.take(k + 1).last() == ev[k as int]);
        assert(out@ =~= base + setenv_args_bytes(ev.take(k + 1)));
        k = k + 1;
    }
    assert(ev.take(k as int) =~= ev);
    out.push(10u8);
    out
}

// ---------------------------------------------------------------------------
// Runtime files of distrod.
// ---------------------------------------------------------------------------

/// The directory of distrod's runtime files.
pub open spec fn runtime_dir() -> Seq<char> {
    "/run/distrod"@
}

/// The directory of distrod's runtime files; making it exist is left to the caller.
pub fn get_distrod_runtime_files_dir_path() -> (r: HostPath)
    ensures
        r@ == runtime_dir(),
{
    proof {
        reveal_strlit("/run/distrod");
    }
    HostPath::from_absolute("/run/distrod")
}

/// The name of the script that sets the WSL variables for the user `uid`.
pub open spec fn per_user_script_name(uid: Seq<char>) -> Seq<char> {
    "distrod_wsl_env-uid"@ + uid
}

/// The name of the script that sets the WSL variables for the user `uid`.
pub fn get_per_user_envs_init_script_name(uid: &str) -> (r: String)
    ensures
        r@ == per_user_script_name(uid@),
{
    let mut v: Vec<char> = Vec::new();
    extend_str(&mut v, "distrod_wsl_env-uid");
    extend_str(&mut v, uid);
    seq_to_string(&v)
}

/// The path of the per-user script, as a shell expression that the login
/// shell expands for the user who logs in.
pub fn get_per_user_envs_init_script_shellexp() -> (r: String)
    ensures
        r@ == runtime_dir() + seq!['/'] + per_user_script_name("$(id -u)"@),
{
    let dir = get_distrod_runtime_files_dir_path();
    let mut v: Vec<char> = str_to_chars(dir.as_str());
    v.push('/');
    let name = get_per_user_envs_init_script_name("$(id -u)");
    extend_str(&mut v, name.as_str());
    seq_to_string(&v)
}

/// The path of the script that sets the WSL variables for the user `uid`.
pub fn get_per_user_envs_init_script_path(uid: u32) -> (r: HostPath)
    ensures
        r@ == path_join(runtime_dir(), per_user_script_name(decimal_spec(uid as nat))),
{
    let digits = decimal_chars(uid);
    let uid_str = seq_to_string(&digits);
    let name = get_per_user_envs_init_script_name(uid_str.as_str());
    get_distrod_runtime_files_dir_path().joined(name.as_str())
}

/// Where the kernel command line given to systemd is written.
pub fn get_cmdline_overwrite_path() -> (r: HostPath)
    ensures
        r@ == path_join(runtime_dir(), "cmdline"@),
{
    get_distrod_runtime_files_dir_path().joined("cmdline")
}

/// Where the run information of the running distro is written.
pub fn get_distro_run_info_path() -> (r: HostPath)
    ensures
        r@ == path_join(runtime_dir(), "distrod_run_info.json"@),
{
    get_distrod_runtime_files_dir_path().joined("distrod_run_info.json")
}

/// What is known of a running distro: its root filesystem and the pid of its init.
#[derive(Debug, Clone)]
pub struct DistroRunInfo {
    pub rootfs: String,
    pub init_pid: u32,
}

// ---------------------------------------------------------------------------
// Adjusting a new root filesystem.
// ---------------------------------------------------------------------------

/// The placeholder for the host name in a container image's `/etc/hosts`.
pub open spec fn lxc_name_pattern() -> Seq<char> {
    "\\bLXC_NAME\\b"@
}

/// `/etc/hosts` with the word `LXC_NAME` replaced by the host name; `None`
/// when the regex crate refuses the pattern.
pub fn hosts_with_hostname(hosts: &str, hostname: &str) -> (r: Option<String>)
    ensures
        match r {
            None => !regex_valid(lxc_name_pattern()),
            Some(s) => regex_valid(lxc_name_pattern()) && s@ == regex_replace_all(
                lxc_name_pattern(),
                hosts@,
                hostname@,
            ),
        },
{
    match Pattern::new("\\bLXC_NAME\\b") {
        Some(p) => Some(p.replace_all(hosts, hostname)),
        None => None,
    }
}

/// `s` without a leading and a trailing double quote: each is dropped when
/// it is there.
pub open spec fn strip_quotes_spec(s: Seq<char>) -> Seq<char> {
    let a = if s.len() > 0 && s[0] == '"' {
        s.drop_first()
    } else {
        s
    };
    if s.len() > 0 && s.last() == '"' {
        a.drop_last()
    } else {
        a
    }
}

/// `s` without its surrounding double quotes. A lone `"` is refused: it is
/// both the leading and the trailing quote.
pub fn strip_quotes(s: &str) -> (r: &str)
    requires
        s@ != seq!['"'],
    ensures
        r@ == strip_quotes_spec(s@),
{
    let n = s.unicode_len();
    let starts = n > 0 && s.get_char(0) == '"';
    let ends = n > 0 && s.get_char(n - 1) == '"';
    let from: usize = if starts {
        1
    } else {
        0
    };
    let to: usize = if ends {
        n - 1
    } else {
        n
    };
    if starts && ends && n == 1 {
        assert(s@ =~= seq!['"']);
    }
    let r = s.substring_char(from, to);
    assert(r@ =~= strip_quotes_spec(s@));
    r
}

/// The distros that need their own adjustments.
#[derive(Debug, Clone, Copy, PartialEq, Eq)]
pub enum DistroName {
    Debian,
    Kali,
    Undetected,
}

/// The distro named by the `ID` of `/etc/os-release`, quotes stripped.
pub open spec fn distro_of_id(id: Option<Seq<char>>) -> DistroName {
    match id {
        Some(v) => if strip_quotes_spec(v) == "debian"@ {
            DistroName::Debian
        } else if strip_quotes_spec(v) == "kali"@ {
            DistroName::Kali
        } else {
            DistroName::Undetected
        },
        None => DistroName::Undetected,
    }
}

/// The distro whose `/etc/os-release` is `os_release`; `None` when that file
/// does not exist.
pub fn detect_distro(os_release: Option<&EnvFile>) -> (r: DistroName)
    requires
        os_release matches Some(f) ==> env_value(f@.lines, "ID"@) != Some(seq!['"']),
    ensures
        r == match os_release {
            None => DistroName::Undetected,
            Some(f) => distro_of_id(env_value(f@.lines, "ID"@)),
        },
{
    let f = match os_release {
        None => {
            return DistroName::Undetected;
        },
        Some(f) => f,
    };
    match f.get_env("ID") {
        None => DistroName::Undetected,
        Some(v) => {
            let id = strip_quotes(v);
            if str_eq(id, "debian") {
                DistroName::Debian
            } else if str_eq(id, "kali") {
                DistroName::Kali
            } else {
                DistroName::Undetected
            }
        },
    }
}

/// The line that makes sudo read the environment files.
pub open spec fn pam_env_line() -> Seq<char> {
    "session    required   pam_env.so readenv=1 user_readenv=0"@
}

/// The comment written above it.
pub open spec fn pam_env_comment() -> Seq<char> {
    "# The following line of pam_env.so is inserted by Distrod"@
}

/// sudo's PAM file with `pam_env.so` added as its third line, after a
/// comment; `None` when the file already mentions `pam_env.so`.
pub open spec fn sudo_pam_with_readenv(cont: Seq<char>) -> Option<Seq<char>> {
    if contains_seq(cont, "pam_env.so"@) {
        None
    } else {
        let ls = split_spec(cont, '\n');
        Some(join_spec(ls.take(2) + seq![pam_env_comment(), pam_env_line()] + ls.skip(2), '\n'))
    }
}

/// sudo's PAM file `cont` with `pam_env.so` added, unless it is there
/// already. The file must have at least two lines when it is changed.
pub fn put_readenv_in_sudo_pam(cont: &str) -> (r: Option<String>)
    requires
        contains_seq(cont@, "pam_env.so"@) || split_spec(cont@, '\n').len() >= 2,
    ensures
        r matches Some(s) ==> sudo_pam_with_readenv(cont@) == Some(s@),
        r is None ==> sudo_pam_with_readenv(cont@) is None,
{
    let cc = str_to_chars(cont);
    let needle = str_to_chars("pam_env.so");
    if contains_chars(&cc, &needle) {
        return None;
    }
    let lines = split_str(cont, '\n');
    let ghost ls = split_spec(cont@, '\n');
    let mut parts: Vec<Vec<char>> = Vec::new();
    let mut i: usize = 0;
    while i < lines.len()
        invariant
            i <= lines.len(),
            lines.len() >= 2,
            lines@.map_values(|x: &str| x@) == ls,
            parts@.map_values(|p: Vec<char>| p@) == if i <= 2 {
                ls.take(i as int)
            } else {
                ls.take(2) + seq![pam_env_comment(), pam_env_line()] + ls.subrange(2, i as int)
            },
        decreases lines.len() - i,
    {
        if i == 2 {
            let ghost prev = parts@.map_values(|p: Vec<char>| p@);
            parts.push(str_to_chars("# The following line of pam_env.so is inserted by Distrod"));
            parts.push(str_to_chars("session    required   pam_env.so readenv=1 user_readenv=0"));
            assert(parts@.map_values(|p: Vec<char>| p@) =~= prev + seq![pam_env_comment(), pam_env_line()]);
        }
        let ghost prev = parts@.map_values(|p: Vec<char>| p@);
        parts.push(str_to_chars(lines[i]));
        assert(parts@.map_values(|p: Vec<char>| p@) =~= prev.push(ls[i as int]));
        proof {
            if i + 1 <= 2 {
                assert(ls.take(i + 1) =~= ls.take(i as int).push(ls[i as int]));
            } else {
                assert(ls.take(2) + seq![pam_env_comment(), pam_env_line()] + ls.subrange(2, i + 1) =~= (
                ls.take(2) + seq![pam_env_comment(), pam_env_line()] + ls.subrange(2, i as int)).push(
                    ls[i as int],
                ));
            }
        }
        i = i + 1;
    }
    if i == 2 {
        let ghost prev = parts@.map_values(|p: Vec<char>| p@);
        parts.push(str_to_chars("# The following line of pam_env.so is inserted by Distrod"));
        parts.push(str_to_chars("session    required   pam_env.so readenv=1 user_readenv=0"));
        assert(parts@.map_values(|p: Vec<char>| p@) =~= prev + seq![pam_env_comment(), pam_env_line()]);
        assert(ls.skip(2) =~= Seq::<Seq<char>>::empty());
        assert(ls.take(2) =~= ls);
        assert(parts@.map_values(|p: Vec<char>| p@) =~= ls.take(2) + seq![pam_env_comment(), pam_env_line()]
            + ls.skip(2));
    } else {
        assert(ls.subrange(2, i as int) =~= ls.skip(2));
    }
    let joined = join_chars(&parts, '\n');
    Some(seq_to_string(&joined))
}

/// The units that do not work in a distro under WSL, to be disabled.
pub fn incompatible_systemd_services() -> (r: Vec<&'static str>)
    ensures
        r@ == seq!["dhcpcd.service", "NetworkManager.service", "multipathd.service", "systemd-networkd.service", "systemd-resolved.service", "networking.service", "fwupd-refresh.service", "fwupd-refresh.timer"],
{
    vec![
        "dhcpcd.service",
        "NetworkManager.service",
        "multipathd.service",
        "systemd-networkd.service",
        "systemd-resolved.service",
        "networking.service",
        "fwupd-refresh.service",
        "fwupd-refresh.timer",
    ]
}

/// The units that must not run at all in a distro under WSL, to be masked.
pub fn systemd_services_to_mask() -> (r: Vec<&'static str>)
    ensures
        r@ == seq!["systemd-remount-fs.service", "systemd-modules-load.service", "getty@tty1.service", "serial-getty@ttyS0.service", "console-getty.service"],
{
    vec![
        "systemd-remount-fs.service",
        "systemd-modules-load.service",
        "getty@tty1.service",
        "serial-getty@ttyS0.service",
        "console-getty.service",
    ]
}

/// The options of units that do not work under WSL: unit, section, directive.
pub fn incompatible_systemd_service_options() -> (r: Vec<(&'static str, &'static str, &'static str)>)
    ensures
        r@ == seq![("systemd-sysusers.service", "Service", "LoadCredential")],
{
    vec![("systemd-sysusers.service", "Service", "LoadCredential")]
}

/// The login script that loads the per-user WSL variables, from its
/// template: the paths of the per-user script (for whoever logs in) and of
/// root's script are filled in.
pub fn per_user_envs_loader_script(template: &str) -> (r: String)
    ensures
        r@ == replace_spec(
            replace_spec(
                template@,
                placeholder("PER_USER_WSL_ENV_INIT_SCRIPT_PATH"@),
                runtime_dir() + seq!['/'] + per_user_script_name("$(id -u)"@),
            ),
            placeholder("ROOT_WSL_ENV_INIT_SCRIPT_PATH"@),
            path_join(runtime_dir(), per_user_script_name(decimal_spec(0))),
        ),
{
    let mut load_script = Template::new(template.to_owned());
    let shellexp = get_per_user_envs_init_script_shellexp();
    load_script.assign("PER_USER_WSL_ENV_INIT_SCRIPT_PATH", shellexp.as_str());
    let root_script = get_per_user_envs_init_script_path(0);
    load_script.assign("ROOT_WSL_ENV_INIT_SCRIPT_PATH", root_script.as_str());
    load_script.render()
}

} // verus!

verus! {

/// The drives bound into the distro are exactly the mount points of the 9p
/// mounts, but `/init`, in the order of the mount table.
pub proof fn lemma_windows_drives_are_9p_mounts(es: Seq<MountEntry>)
    ensures
        windows_drive_mounts(es) == es.filter(|e: MountEntry| e.fstype@ == "9p"@ && e.path@ != "/init"@).map_values(
            |e: MountEntry| e.path@,
        ),
    decreases es.len(),
{
    reveal(Seq::filter);
    let pred = |e: MountEntry| e.fstype@ == "9p"@ && e.path@ != "/init"@;
    if es.len() > 0 {
        lemma_windows_drives_are_9p_mounts(es.drop_last());
        let prev = es.drop_last().filter(pred);
        if pred(es.last()) {
            assert(es.filter(pred) == prev.push(es.last()));
            assert(prev.push(es.last()).map_values(|e: MountEntry| e.path@) =~= prev.map_values(
                |e: MountEntry| e.path@,
            ).push(es.last().path@));
        } else {
            assert(es.filter(pred) == prev);
        }
    } else {
        assert(es.filter(pred).map_values(|e: MountEntry| e.path@) =~= Seq::<Seq<char>>::empty());
    }
}

/// `WSL_INTEROP` is accepted when it is the path of a WSL interop socket;
/// every other WSL variable when it holds only letters, digits and `_./:-`.
pub proof fn lemma_wsl_env_checks(key: Seq<char>, value: Seq<char>)
    ensures
        sane_wsl_env("WSL_INTEROP"@, value) == (regex_valid("^/run/WSL/[0-9]+_interop$"@)
            && regex_is_match("^/run/WSL/[0-9]+_interop$"@, value)),
        key != "WSL_INTEROP"@ ==> sane_wsl_env(key, value) == (regex_valid("^([a-zA-Z0-9_./:]|-)*$"@)
            && regex_is_match("^([a-zA-Z0-9_./:]|-)*$"@, value)),
{
}

/// The distro is Debian when `ID` is `debian` and Kali when it is `kali`,
/// with or without surrounding double quotes; any other `ID`, or none,
/// leaves it undetected.
pub proof fn lemma_distro_ids(id: Seq<char>)
    ensures
        distro_of_id(Some("debian"@)) == DistroName::Debian,
        distro_of_id(Some(seq!['"'] + "debian"@ + seq!['"'])) == DistroName::Debian,
        distro_of_id(Some("kali"@)) == DistroName::Kali,
        distro_of_id(Some(seq!['"'] + "kali"@ + seq!['"'])) == DistroName::Kali,
        distro_of_id(None) == DistroName::Undetected,
        strip_quotes_spec(id) != "debian"@ && strip_quotes_spec(id) != "kali"@ ==> distro_of_id(Some(id))
            == DistroName::Undetected,
{
    reveal_strlit("debian");
    reveal_strlit("kali");
    let d = "debian"@;
    let k = "kali"@;
    assert(strip_quotes_spec(d) =~= d);
    assert(strip_quotes_spec(k) =~= k);
    assert(strip_quotes_spec(seq!['"'] + d + seq!['"']) =~= d);
    assert(strip_quotes_spec(seq!['"'] + k + seq!['"']) =~= k);
    assert(d != k) by {
        assert(d.len() != k.len());
    }
}

} // verus!
