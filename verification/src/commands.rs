//! Decisions of the command-line programs: the options they take, how a
//! command alias is run, the name and place of a distro created from a local
//! image, the delay before systemd starts, and what the port proxy forwards.

use vstd::prelude::*;
use crate::command_alias::CommandAlias;
use crate::distrod_config::alias_dir;
use crate::paths::{components, components_exec, path_join, path_starts_with, join_path};
use crate::text::{
    decimal_chars, decimal_spec, ends_with_chars, extend_chars, extend_str, has_suffix,
    parse_u32, parse_u32_spec, replace_chars, replace_spec, seq_to_string, str_eq, str_to_chars,
};

verus! {

/// The options of `distrod enable`.
#[derive(Debug, Clone, Copy, PartialEq, Eq)]
pub struct EnableOpts {
    pub start_on_windows_boot: bool,
    pub do_full_initialization: bool,
}

/// The options of `distrod disable`.
#[derive(Debug, Clone, Copy, PartialEq, Eq)]
pub struct DisableOpts {}

/// What `portproxy show` shows.
#[derive(Debug, Clone, PartialEq, Eq)]
pub enum ShowItem {
    Ipv4(String),
}

/// The options of `portproxy show`.
#[derive(Debug, Clone, PartialEq, Eq)]
pub struct ShowOpts {
    pub show: ShowItem,
}

/// The options of `portproxy proxy`: where to forward, and the TCP ports.
#[derive(Debug, Clone, PartialEq, Eq)]
pub struct ProxyOpts {
    pub dest_addr: String,
    pub tcp4: Vec<u16>,
}

// ---------------------------------------------------------------------------
// Running as a command alias.
// ---------------------------------------------------------------------------

/// The last component of a path, unless it is `..` (`Path::file_name`).
pub open spec fn file_name_of(p: Seq<char>) -> Option<Seq<char>> {
    let cs = components(p);
    if cs.len() == 0 || cs.last() == ".."@ {
        None
    } else {
        Some(cs.last())
    }
}

/// The last component of a path, unless it is `..`.
pub fn file_name(p: &str) -> (r: Option<String>)
    ensures
        match file_name_of(p@) {
            Some(n) => (r matches Some(s) && s@ == n),
            None => r is None,
        },
{
    let pc = str_to_chars(p);
    let cs = components_exec(&pc);
    if cs.len() == 0 {
        return None;
    }
    let last = &cs[cs.len() - 1];
    assert(last@ == components(p@).last());
    let dots = str_to_chars("..");
    if crate::text::chars_eq(last, &dots) {
        return None;
    }
    Some(seq_to_string(last))
}

/// The program runs as an alias: its path is in the alias directory and its
/// name is not `distrod`.
pub open spec fn runs_as_alias(self_path: Seq<char>) -> bool {
    file_name_of(self_path) != Some("distrod"@) && path_starts_with(self_path, alias_dir())
}

/// Whether the program at `self_path` runs as a command alias.
pub fn is_executed_as_alias(self_path: &str) -> (r: bool)
    ensures
        r == runs_as_alias(self_path@),
{
    match file_name(self_path) {
        Some(n) => {
            if str_eq(n.as_str(), "distrod") {
                return false;
            }
        },
        None => {},
    }
    CommandAlias::is_alias(self_path)
}

/// The arguments that `distrod-exec` is run with for an alias of `source`
/// called with `args` (the alias's own name first).
pub open spec fn alias_exec_args_spec(source: Seq<char>, args: Seq<Seq<char>>) -> Seq<Seq<char>> {
    seq!["distrod-exec"@, "--"@, source] + args
}

/// The arguments that `distrod-exec` is run with for an alias.
pub fn alias_exec_args(source_path: &str, args: &Vec<String>) -> (r: Vec<String>)
    ensures
        r@.map_values(|s: String| s@) == alias_exec_args_spec(source_path@, args@.map_values(|s: String| s@)),
{
    let mut r: Vec<String> = Vec::new();
    r.push("distrod-exec".to_owned());
    r.push("--".to_owned());
    r.push(source_path.to_owned());
    let ghost head = r@.map_values(|s: String| s@);
    let ghost av = args@.map_values(|s: String| s@);
    let mut i: usize = 0;
    while i < args.len()
        invariant
            i <= args.len(),
            av == args@.map_values(|s: String| s@),
            r@.map_values(|s: String| s@) == head + av.take(i as int),
        decreases args.len() - i,
    {
        let ghost prev = r@.map_values(|s: String| s@);
        r.push(args[i].as_str().to_owned());
        assert(r@.map_values(|s: String| s@) =~= prev.push(av[i as int]));
        assert(av.take(i + 1) =~= av.take(i as int).push(av[i as int]));
        i = i + 1;
    }
    assert(av.take(i as int) =~= av);
    assert(head =~= seq!["distrod-exec"@, "--"@, source_path@]);
    r
}

/// The variable that delays the start of systemd by `distrod-exec`.
pub open spec fn delay_env_name() -> Seq<char> {
    "DISTROD_EXEC_INIT_LAUNCH_DELAY"@
}

/// The delay in seconds that the variable's value asks for, if it is a number.
pub fn init_launch_delay(value: &str) -> (r: Option<u32>)
    ensures
        r == parse_u32_spec(value@),
{
    parse_u32(value)
}

/// `WSLENV` without the delay variable, when it ends with `:` and its name;
/// `None` when it does not.
pub open spec fn wslenv_without_delay_spec(wslenv: Seq<char>) -> Option<Seq<char>> {
    let suffix = seq![':'] + delay_env_name();
    if has_suffix(wslenv, suffix) {
        Some(wslenv.take(wslenv.len() - suffix.len()))
    } else {
        None
    }
}

/// `WSLENV` without the delay variable, which passed it to `distrod-exec`.
pub fn strip_wslenv_for_distrod_exec_delay(wslenv: &str) -> (r: Option<String>)
    ensures
        match wslenv_without_delay_spec(wslenv@) {
            Some(s) => (r matches Some(t) && t@ == s),
            None => r is None,
        },
{
    let w = str_to_chars(wslenv);
    let mut suffix: Vec<char> = Vec::new();
    suffix.push(':');
    extend_str(&mut suffix, "DISTROD_EXEC_INIT_LAUNCH_DELAY");
    assert(suffix@ =~= seq![':'] + delay_env_name());
    if !ends_with_chars(&w, &suffix) {
        return None;
    }
    let n = w.len() - suffix.len();
    Some(crate::text::chars_to_string(&w, 0, n))
}

// ---------------------------------------------------------------------------
// Creating a distro from a local image.
// ---------------------------------------------------------------------------

/// The stem of a file name (`Path::file_stem`): the name before its last
/// `.`, or the whole name when it has none or starts with its only `.`.
pub open spec fn file_stem_of(name: Seq<char>) -> Seq<char> {
    let i = last_dot(name, name.len() as int);
    if name == ".."@ || i <= 0 {
        name
    } else {
        name.take(i)
    }
}

/// The position of the last `.` among the first `n` characters, or -1.
pub open spec fn last_dot(s: Seq<char>, n: int) -> int
    decreases n,
{
    if n <= 0 {
        -1
    } else if s[n - 1] == '.' {
        n - 1
    } else {
        last_dot(s, n - 1)
    }
}

/// The name of a distro created from the image file at `path`: `local-` and
/// the file's stem with `.tar` taken out; `None` when the path names no file.
pub open spec fn local_image_name_spec(path: Seq<char>) -> Option<Seq<char>> {
    match file_name_of(path) {
        Some(n) => Some("local-"@ + replace_spec(file_stem_of(n), ".tar"@, Seq::empty())),
        None => None,
    }
}

/// The name of a distro created from the image file at `path`.
pub fn local_image_name(path: &str) -> (r: Option<String>)
    ensures
        match local_image_name_spec(path@) {
            Some(n) => (r matches Some(s) && s@ == n),
            None => r is None,
        },
{
    let name = match file_name(path) {
        Some(n) => n,
        None => {
            return None;
        },
    };
    let nc = str_to_chars(name.as_str());
    let mut i: usize = nc.len();
    while i > 0 && nc[i - 1] != '.'
        invariant
            i <= nc.len(),
            nc@ == name@,
            last_dot(nc@, nc@.len() as int) == last_dot(nc@, i as int),
        decreases i,
    {
        i = i - 1;
    }
    let dots = str_to_chars("..");
    let stem = if crate::text::chars_eq(&nc, &dots) || i <= 1 {
        nc
    } else {
        crate::text::sub_chars(&nc, 0, i - 1)
    };
    assert(stem@ == file_stem_of(name@));
    let pat = str_to_chars(".tar");
    let empty: Vec<char> = Vec::new();
    let replaced = replace_chars(&stem, &pat, &empty);
    let mut out = str_to_chars("local-");
    extend_chars(&mut out, &replaced);
    Some(seq_to_string(&out))
}

/// Where a distro named `image_name` is installed by default: in the
/// directory of distro images.
pub fn default_install_dir(distro_images_dir: &str, image_name: &str) -> (r: String)
    ensures
        r@ == path_join(distro_images_dir@, image_name@),
{
    join_path(distro_images_dir, image_name)
}

// ---------------------------------------------------------------------------
// The port proxy.
// ---------------------------------------------------------------------------

/// The address the proxy listens on for `port`.
pub open spec fn listen_address(port: u16) -> Seq<char> {
    "0.0.0.0:"@ + decimal_spec(port as nat)
}

/// `addr:port`.
pub open spec fn address_with_port(addr: Seq<char>, port: u16) -> Seq<char> {
    addr + seq![':'] + decimal_spec(port as nat)
}

/// The ports to forward, each with its destination, port 0 left out.
pub open spec fn forwards_spec(dest: Seq<char>, ports: Seq<u16>) -> Seq<(u16, Seq<char>)>
    decreases ports.len(),
{
    if ports.len() == 0 {
        Seq::empty()
    } else {
        let r = forwards_spec(dest, ports.drop_last());
        let p = ports.last();
        if p == 0 {
            r
        } else {
            r.push((p, address_with_port(dest, p)))
        }
    }
}

/// The address the proxy listens on for `port`.
pub fn get_listen_address(port: u16) -> (r: String)
    ensures
        r@ == listen_address(port),
{
    let mut v = str_to_chars("0.0.0.0:");
    let d = decimal_chars(port as u32);
    extend_chars(&mut v, &d);
    seq_to_string(&v)
}

impl ProxyOpts {
    /// The ports to forward, each with the address it is forwarded to.
    pub fn forwards(&self) -> (r: Vec<(u16, String)>)
        ensures
            r@.map_values(|f: (u16, String)| (f.0, f.1@)) == forwards_spec(self.dest_addr@, self.tcp4@),
    {
        let ghost pv = self.tcp4@;
        let mut r: Vec<(u16, String)> = Vec::new();
        let mut i: usize = 0;
        assert(pv.take(0) =~= Seq::<u16>::empty());
        while i < self.tcp4.len()
            invariant
                i <= self.tcp4.len(),
                pv == self.tcp4@,
                r@.map_values(|f: (u16, String)| (f.0, f.1@)) == forwards_spec(self.dest_addr@, pv.take(i as int)),
            decreases self.tcp4.len() - i,
        {
            let port = self.tcp4[i];
            assert(pv.take(i + 1).drop_last() =~= pv.take(i as int));
            assert(pv.take(i + 1).last() == port);
            if port != 0 {
                let mut dest = str_to_chars(self.dest_addr.as_str());
                dest.push(':');
                let d = decimal_chars(port as u32);
                extend_chars(&mut dest, &d);
                assert(dest@ =~= address_with_port(self.dest_addr@, port));
                let ghost prev = r@.map_values(|f: (u16, String)| (f.0, f.1@));
                let dest = seq_to_string(&dest);
                r.push((port, dest));
                assert(r@.map_values(|f: (u16, String)| (f.0, f.1@)) =~= prev.push(
                    (port, address_with_port(self.dest_addr@, port)),
                ));
            }
            i = i + 1;
        }
        assert(pv.take(i as int) =~= pv);
        r
    }
}

/// The first IPv4 address of the interface `eth0`, among interfaces given
/// as their name and, when it is one, their IPv4 address.
pub open spec fn eth0_ipv4_spec(ifaces: Seq<(Seq<char>, Option<[u8; 4]>)>) -> Option<[u8; 4]>
    decreases ifaces.len(),
{
    if ifaces.len() == 0 {
        None
    } else if ifaces[0].0 == "eth0"@ && ifaces[0].1 is Some {
        ifaces[0].1
    } else {
        eth0_ipv4_spec(ifaces.drop_first())
    }
}

/// The IPv4 address that `portproxy show ipv4` prints.
pub fn eth0_ipv4(ifaces: &Vec<(String, Option<[u8; 4]>)>) -> (r: Option<[u8; 4]>)
    ensures
        r == eth0_ipv4_spec(ifaces@.map_values(|f: (String, Option<[u8; 4]>)| (f.0@, f.1))),
{
    let ghost iv = ifaces@.map_values(|f: (String, Option<[u8; 4]>)| (f.0@, f.1));
    let mut i: usize = 0;
    assert(iv.skip(0) =~= iv);
    while i < ifaces.len()
        invariant
            i <= ifaces.len(),
            iv == ifaces@.map_values(|f: (String, Option<[u8; 4]>)| (f.0@, f.1)),
            eth0_ipv4_spec(iv) == eth0_ipv4_spec(iv.skip(i as int)),
        decreases ifaces.len() - i,
    {
        let ghost rest = iv.skip(i as int);
        assert(rest[0] == iv[i as int]);
        assert(rest.drop_first() =~= iv.skip(i + 1));
        if str_eq(ifaces[i].0.as_str(), "eth0") {
            if let Some(a) = ifaces[i].1 {
                return Some(a);
            }
        }
        i = i + 1;
    }
    None
}

/// The address shown is that of the first interface named `eth0` that has
/// an IPv4 address; there is none when no such interface is listed.
pub proof fn lemma_eth0_first_address(ifaces: Seq<(Seq<char>, Option<[u8; 4]>)>)
    ensures
        eth0_ipv4_spec(ifaces) matches Some(a) ==> exists|i: int|
            0 <= i < ifaces.len() && ifaces[i] == ("eth0"@, Some(a)) && forall|j: int|
                0 <= j < i ==> !(#[trigger] ifaces[j].0 == "eth0"@ && ifaces[j].1 is Some),
        eth0_ipv4_spec(ifaces) is None ==> forall|i: int|
            0 <= i < ifaces.len() ==> !(#[trigger] ifaces[i].0 == "eth0"@ && ifaces[i].1 is Some),
    decreases ifaces.len(),
{
    if ifaces.len() > 0 {
        let rest = ifaces.drop_first();
        lemma_eth0_first_address(rest);
        if ifaces[0].0 == "eth0"@ && ifaces[0].1 is Some {
            let a = ifaces[0].1->Some_0;
            assert(ifaces[0] == ("eth0"@, Some(a)));
        } else {
            assert forall|i: int| 1 <= i < ifaces.len() implies ifaces[i] == rest[i - 1] by {}
            if let Some(a) = eth0_ipv4_spec(ifaces) {
                let k = choose|k: int|
                    0 <= k < rest.len() && rest[k] == ("eth0"@, Some(a)) && forall|j: int|
                        0 <= j < k ==> !(#[trigger] rest[j].0 == "eth0"@ && rest[j].1 is Some);
                assert(ifaces[k + 1] == rest[k]);
                assert forall|j: int| 0 <= j < k + 1 implies !(#[trigger] ifaces[j].0 == "eth0"@
                    && ifaces[j].1 is Some) by {
                    if j > 0 {
                        assert(ifaces[j] == rest[j - 1]);
                    }
                }
            } else {
                assert forall|i: int| 0 <= i < ifaces.len() implies !(#[trigger] ifaces[i].0 == "eth0"@
                    && ifaces[i].1 is Some) by {
                    if i > 0 {
                        assert(ifaces[i] == rest[i - 1]);
                    }
                }
            }
        }
    }
}

/// Taking the delay variable out of `WSLENV` removes exactly the trailing
/// `:DISTROD_EXEC_INIT_LAUNCH_DELAY` and keeps everything before it; a value
/// that does not end so is refused.
pub proof fn lemma_wslenv_without_delay(w: Seq<char>, other: Seq<char>)
    ensures
        wslenv_without_delay_spec(w + ":DISTROD_EXEC_INIT_LAUNCH_DELAY"@) == Some(w),
        !(other.len() >= 31 && other.skip(other.len() - 31) == ":DISTROD_EXEC_INIT_LAUNCH_DELAY"@)
            ==> wslenv_without_delay_spec(other) is None,
{
    reveal_strlit(":DISTROD_EXEC_INIT_LAUNCH_DELAY");
    reveal_strlit("DISTROD_EXEC_INIT_LAUNCH_DELAY");
    let t = ":DISTROD_EXEC_INIT_LAUNCH_DELAY"@;
    let suffix = seq![':'] + delay_env_name();
    assert(suffix =~= t);
    let x = w + t;
    assert(x.subrange(x.len() - t.len(), x.len() as int) =~= t);
    assert(x.take(x.len() - t.len()) =~= w);
    if other.len() >= 31 {
        assert(other.subrange(other.len() - 31, other.len() as int) =~= other.skip(other.len() - 31));
    }
}

/// The stem of a file name that ends with `.` and an extension holding no
/// `.`, after a non-empty part, is that part; a name holding no `.` is its
/// own stem.
pub proof fn lemma_file_stem(stem: Seq<char>, ext: Seq<char>)
    requires
        stem.len() > 0,
        !ext.contains('.'),
    ensures
        stem + seq!['.'] + ext != ".."@ ==> file_stem_of(stem + seq!['.'] + ext) == stem,
        !stem.contains('.') ==> file_stem_of(stem) == stem,
{
    let name = stem + seq!['.'] + ext;
    lemma_last_dot_after(name, stem.len() as int, name.len() as int);
    if !stem.contains('.') {
        lemma_last_dot_none(stem, stem.len() as int);
    }
}

/// With no `.` after position `p`, where one stands, the last `.` before
/// `n` is at `p`.
proof fn lemma_last_dot_after(s: Seq<char>, p: int, n: int)
    requires
        0 <= p < n <= s.len(),
        s[p] == '.',
        forall|j: int| p < j < n ==> s[j] != '.',
    ensures
        last_dot(s, n) == p,
    decreases n,
{
    if n - 1 > p {
        lemma_last_dot_after(s, p, n - 1);
    }
}

/// With no `.` among the first `n` characters, there is no last `.`.
proof fn lemma_last_dot_none(s: Seq<char>, n: int)
    requires
        0 <= n <= s.len(),
        !s.contains('.'),
    ensures
        last_dot(s, n) == -1,
    decreases n,
{
    if n > 0 {
        assert(s[n - 1] != '.');
        lemma_last_dot_none(s, n - 1);
    }
}

} // verus!
