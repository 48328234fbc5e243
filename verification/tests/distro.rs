use distrod::distro::{
    collect_wsl_interop_envs_for_system_envs, detect_distro, env_to_systemd_setenv_arg,
    get_cmdline_overwrite_path, get_cmdline_with_wsl_interop_envs_for_systemd,
    get_distro_run_info_path, get_names_of_wsl_interop_envs_for_system_envs,
    get_per_user_envs_init_script_name, get_per_user_envs_init_script_path,
    get_per_user_envs_init_script_shellexp, hosts_with_hostname, is_inside_running_distro,
    per_user_envs_loader_script, put_readenv_in_sudo_pam, sanity_check_general_wsl_envs,
    sanity_check_wsl_env, sanity_check_wsl_interop, strip_quotes, windows_drive_mount_paths,
    DistroName,
};
use distrod::envfile::EnvFile;
use distrod::mount_info::MountEntry;

fn mount(path: &str, source: &str, fstype: &str, attributes: &[&str]) -> MountEntry {
    MountEntry {
        path: path.to_owned(),
        source: source.to_owned(),
        fstype: fstype.to_owned(),
        attributes: attributes.iter().map(|a| a.to_string()).collect(),
    }
}

#[test]
fn test_sanity_check_wsl_interop() {
    assert!(sanity_check_wsl_interop("/run/WSL/12_interop"));
    assert!(!sanity_check_wsl_interop("/etc/passwd"));
    assert!(!sanity_check_wsl_interop("/run/WSL/some_new_socket"));
    assert!(!sanity_check_wsl_interop("/run/WSL/12_interop_tail"));
    assert!(!sanity_check_wsl_interop("/run/WSL/12_interop\ntest"));
}

#[test]
fn test_sanity_check_wsl_general_env() {
    assert!(sanity_check_general_wsl_envs("OneDrive/p:SOME_VAR:PATH/p"));
    assert!(sanity_check_general_wsl_envs("Ubuntu-20.04"));
    assert!(!sanity_check_general_wsl_envs(
        "OneDrive/p:SOME_VAR:PATH/p\nHOME=/etc"
    ));
    assert!(!sanity_check_general_wsl_envs("Ubuntu-20.04\ntest"));
}

#[test]
fn distro_test_cleanup_distro_rootfs() {
    let etc_hosts = "\n\
        127.0.1.1     LXC_NAME\n\
        8.8.8.8       WEIRD_LXC_NAME_FOR_ANOTHER_MACHINE\n";
    let new_etc_hosts = hosts_with_hostname(etc_hosts, "ubuntu").unwrap();
    assert_eq!(
        new_etc_hosts,
        "\n127.0.1.1     ubuntu\n\
        8.8.8.8       WEIRD_LXC_NAME_FOR_ANOTHER_MACHINE\n"
    );
}

#[test]
fn only_listed_and_safe_envs_reach_systemd() {
    let envs = vec![
        ("WSL_INTEROP".to_owned(), "/run/WSL/12_interop".to_owned()),
        ("WSLENV".to_owned(), "OneDrive/p:SOME_VAR".to_owned()),
        ("WSL_DISTRO_NAME".to_owned(), "Ubuntu\nHOME=/etc".to_owned()),
        ("HOME".to_owned(), "/root".to_owned()),
    ];
    let kept = collect_wsl_interop_envs_for_system_envs(&envs);
    assert_eq!(
        kept,
        vec![
            ("WSL_INTEROP".to_owned(), "/run/WSL/12_interop".to_owned()),
            ("WSLENV".to_owned(), "OneDrive/p:SOME_VAR".to_owned()),
        ]
    );
    assert!(sanity_check_wsl_env("WSL_INTEROP", "/run/WSL/1_interop"));
    assert!(!sanity_check_wsl_env("WSL_INTEROP", "Ubuntu"));
    assert!(sanity_check_wsl_env("WSLENV", "Ubuntu"));
    assert_eq!(
        get_names_of_wsl_interop_envs_for_system_envs(),
        vec!["WSL_INTEROP", "WSLENV", "WSL_DISTRO_NAME"]
    );
}

#[test]
fn kernel_cmdline_carries_the_envs() {
    assert_eq!(
        env_to_systemd_setenv_arg("WSLENV", "a:b"),
        "systemd.setenv=WSLENV=a:b"
    );
    let envs = vec![
        ("WSL_INTEROP".to_owned(), "/run/WSL/12_interop".to_owned()),
        ("WSL_DISTRO_NAME".to_owned(), "Ubuntu".to_owned()),
    ];
    let cmdline = get_cmdline_with_wsl_interop_envs_for_systemd(b"initrd=\\initrd.img quiet\n", &envs);
    assert_eq!(
        String::from_utf8(cmdline).unwrap(),
        "initrd=\\initrd.img quiet systemd.setenv=WSL_INTEROP=/run/WSL/12_interop systemd.setenv=WSL_DISTRO_NAME=Ubuntu\n"
    );
    assert_eq!(
        get_cmdline_with_wsl_interop_envs_for_systemd(b"quiet", &vec![]),
        b"quiet\n".to_vec()
    );
}

#[test]
fn runtime_file_paths() {
    assert_eq!(get_per_user_envs_init_script_name("1000"), "distrod_wsl_env-uid1000");
    assert_eq!(
        get_per_user_envs_init_script_shellexp(),
        "/run/distrod/distrod_wsl_env-uid$(id -u)"
    );
    assert_eq!(
        get_per_user_envs_init_script_path(1000).as_str(),
        "/run/distrod/distrod_wsl_env-uid1000"
    );
    assert_eq!(get_cmdline_overwrite_path().as_str(), "/run/distrod/cmdline");
    assert_eq!(
        get_distro_run_info_path().as_str(),
        "/run/distrod/distrod_run_info.json"
    );
    assert_eq!(
        per_user_envs_loader_script(
            "A={{PER_USER_WSL_ENV_INIT_SCRIPT_PATH}}\nB={{ROOT_WSL_ENV_INIT_SCRIPT_PATH}}\n"
        ),
        "A=/run/distrod/distrod_wsl_env-uid$(id -u)\nB=/run/distrod/distrod_wsl_env-uid0\n"
    );
}

#[test]
fn inside_the_distro_iff_the_old_root_is_mounted() {
    let outside = vec![mount("/", "/dev/sdb", "ext4", &[]), mount("/mnt/c", "C:\\", "9p", &[])];
    assert!(!is_inside_running_distro(Some(&outside)));
    let inside = vec![
        mount("/", "/dev/sdb", "ext4", &[]),
        mount("/mnt/distrod_root/mnt/c", "C:\\", "9p", &[]),
    ];
    assert!(is_inside_running_distro(Some(&inside)));
    // a sibling directory whose name merely starts the same is not under it
    let sibling = vec![mount("/mnt/distrod_rootfs", "x", "ext4", &[])];
    assert!(!is_inside_running_distro(Some(&sibling)));
    assert!(is_inside_running_distro(None));
}

#[test]
fn windows_drives_are_the_9p_mounts_but_init() {
    let entries = vec![
        mount("/init", "tools", "9p", &[]),
        mount("/mnt/c", "C:\\", "9p", &[]),
        mount("/", "/dev/sdb", "ext4", &[]),
        mount("/mnt/d", "D:\\", "9p", &[]),
    ];
    assert_eq!(windows_drive_mount_paths(&entries), vec!["/mnt/c", "/mnt/d"]);
}

#[test]
fn quotes_are_stripped_at_both_ends() {
    assert_eq!(strip_quotes("\"debian\""), "debian");
    assert_eq!(strip_quotes("debian"), "debian");
    assert_eq!(strip_quotes("\"kali"), "kali");
    assert_eq!(strip_quotes("ubuntu\""), "ubuntu");
    assert_eq!(strip_quotes("\"\""), "");
    assert_eq!(strip_quotes(""), "");
}

#[test]
fn distro_is_detected_from_os_release() {
    let debian = EnvFile::parse_file("os-release".to_owned(), b"NAME=\"Debian\"\nID=debian\n");
    assert_eq!(detect_distro(Some(&debian)), DistroName::Debian);
    let kali = EnvFile::parse_file("os-release".to_owned(), b"ID=\"kali\"\n");
    assert_eq!(detect_distro(Some(&kali)), DistroName::Kali);
    let ubuntu = EnvFile::parse_file("os-release".to_owned(), b"ID=ubuntu\nID_LIKE=debian\n");
    assert_eq!(detect_distro(Some(&ubuntu)), DistroName::Undetected);
    let none = EnvFile::parse_file("os-release".to_owned(), b"NAME=x\n");
    assert_eq!(detect_distro(Some(&none)), DistroName::Undetected);
    assert_eq!(detect_distro(None), DistroName::Undetected);
}

#[test]
fn pam_env_is_put_as_the_third_line() {
    let pam = "#%PAM-1.0\n\nsession    required   pam_limits.so\n@include common-auth\n";
    assert_eq!(
        put_readenv_in_sudo_pam(pam).unwrap(),
        "#%PAM-1.0\n\n# The following line of pam_env.so is inserted by Distrod\n\
         session    required   pam_env.so readenv=1 user_readenv=0\n\
         session    required   pam_limits.so\n@include common-auth\n"
    );
    assert_eq!(
        put_readenv_in_sudo_pam("a\nb").unwrap(),
        "a\nb\n# The following line of pam_env.so is inserted by Distrod\n\
         session    required   pam_env.so readenv=1 user_readenv=0"
    );
    assert!(put_readenv_in_sudo_pam("session required pam_env.so\n").is_none());
}
