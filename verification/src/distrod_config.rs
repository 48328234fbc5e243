//! Fixed locations of the installation.

use vstd::prelude::*;

verus! {

/// The directory that holds the command aliases.
pub open spec fn alias_dir() -> Seq<char> {
    "/opt/distrod/alias"@
}

/// The directory that holds the command aliases.
pub fn get_alias_dir() -> (r: &'static str)
    ensures
        r@ == alias_dir(),
{
    "/opt/distrod/alias"
}

/// The path of the `distrod` binary.
pub fn get_distrod_bin_path() -> (r: &'static str)
    ensures
        r@ == "/opt/distrod/distrod"@,
{
    "/opt/distrod/distrod"
}

/// The path of the `distrod-exec` binary.
pub fn get_distrod_exec_bin_path() -> (r: &'static str)
    ensures
        r@ == "/opt/distrod/distrod-exec"@,
{
    "/opt/distrod/distrod-exec"
}

/// The directory that holds the binaries.
pub fn get_distrod_bin_dir_path() -> (r: &'static str)
    ensures
        r@ == "/opt/distrod/bin"@,
{
    "/opt/distrod/bin"
}

/// The settings read from `distrod.toml`.
#[derive(Clone, Debug)]
pub struct DistrodConfig {
    pub distrod: DistrodGlobalConfig,
}

/// The `[distrod]` table of `distrod.toml`.
#[derive(Clone, Debug)]
pub struct DistrodGlobalConfig {
    pub default_distro_image: String,
    pub distro_images_dir: String,
}

} // verus!
