use distrod::autostart::{
    generate_schedule_posh_command, generate_task_xml, generate_unschedule_posh_command,
    get_schedule_task_name,
};
use distrod::command_alias::{AliasError, CommandAlias};
use distrod::container::{ContainerPath, HostPath, PathError};
use distrod::distrod_config::{get_alias_dir, get_distrod_bin_path, get_distrod_exec_bin_path};
use distrod::mount_info::MountEntry;
use distrod::passwd::{PasswdError, PasswdFile, PasswdView};
use distrod::shell_hook::{
    disable_default_shell_hook, enable_default_shell_hook, hook_entry, shells_to_register,
    unhook_entry, ShellHookError,
};
use distrod::template::Template;
use distrod::wsl_interop::{collect_wsl_paths, get_wsl_drive_mount_point, get_wsl_drive_path};
use distrod::wsl_launcher::{
    add_user_command, gen_name_candidates_for_path, wsl_command_args, get_windows10_build_number, is_windows10, query_uid, OutputError,
};

fn mount(path: &str, source: &str, fstype: &str, attributes: &[&str]) -> MountEntry {
    MountEntry {
        path: path.to_owned(),
        source: source.to_owned(),
        fstype: fstype.to_owned(),
        attributes: attributes.iter().map(|a| a.to_string()).collect(),
    }
}

#[test]
fn template_replaces_every_placeholder() {
    let mut t = Template::new("Hello {{NAME}}, {{NAME}}! {{OTHER}} {NAME}".to_owned());
    t.assign("NAME", "distrod");
    assert_eq!(t.render(), "Hello distrod, distrod! {{OTHER}} {NAME}");
    t.assign("MISSING", "x");
    assert_eq!(t.render(), "Hello distrod, distrod! {{OTHER}} {NAME}");
    t.assign("OTHER", "").assign("NAME", "again");
    assert_eq!(t.render(), "Hello distrod, distrod!  {NAME}");
}

#[test]
fn config_paths() {
    assert_eq!(get_alias_dir(), "/opt/distrod/alias");
    assert_eq!(get_distrod_bin_path(), "/opt/distrod/distrod");
    assert_eq!(get_distrod_exec_bin_path(), "/opt/distrod/distrod-exec");
}

#[test]
fn alias_round_trip() {
    let alias = CommandAlias::from_source("/bin/bash").unwrap();
    assert_eq!(alias.get_source_path(), "/bin/bash");
    assert_eq!(alias.get_link_path(), "/opt/distrod/alias/bin/bash");
    assert!(CommandAlias::is_alias(alias.get_link_path()));
    assert!(!CommandAlias::is_alias("/bin/bash"));
    assert!(!CommandAlias::is_alias("/opt/distrod/aliases/bin/bash"));
    let back = CommandAlias::open_from_link(alias.get_link_path()).unwrap();
    assert_eq!(back.get_source_path(), "/bin/bash");
    assert!(matches!(
        CommandAlias::from_source("bin/bash"),
        Err(AliasError::SourceNotAbsolute)
    ));
    assert!(matches!(
        CommandAlias::open_from_link("/usr/bin/bash"),
        Err(AliasError::NotInAliasDir)
    ));
}

#[test]
fn container_and_host_paths_convert() {
    let rootfs = HostPath::new("/var/lib/distrod/rootfs").unwrap();
    let etc = ContainerPath::new("/etc/hosts").unwrap();
    assert_eq!(etc.to_host_path(&rootfs).as_str(), "/var/lib/distrod/rootfs/etc/hosts");
    let old_root = ContainerPath::new("/mnt/distrod_root").unwrap();
    let home = HostPath::new("/home/user").unwrap();
    assert_eq!(home.to_container_path(&old_root).as_str(), "/mnt/distrod_root/home/user");
    assert_eq!(ContainerPath::new("etc/hosts"), Err(PathError::NotAbsolute));
    assert_eq!(HostPath::new(""), Err(PathError::NotAbsolute));
    assert_eq!(rootfs.joined("etc").as_str(), "/var/lib/distrod/rootfs/etc");
}

#[test]
fn drive_paths_for_windows_10_and_11() {
    let win10 = vec![
        mount("/", "/dev/sdb", "ext4", &[]),
        mount("/mnt/c", "C:\\", "9p", &["rw"]),
    ];
    assert_eq!(get_wsl_drive_path(&win10, "c"), Some("/mnt/c".to_owned()));
    assert_eq!(get_wsl_drive_path(&win10, "d"), None);
    let win11 = vec![mount("/mnt/c", "drvfs", "9p", &["rw", "path=C:\\", "uid=1000"])];
    assert_eq!(get_wsl_drive_path(&win11, "C"), Some("/mnt/c".to_owned()));
    let not_9p = vec![mount("/mnt/c", "C:\\", "ext4", &[])];
    assert_eq!(get_wsl_drive_path(&not_9p, "c"), None);
    assert_eq!(get_wsl_drive_mount_point(Some("/mnt/c")), Some("/mnt".to_owned()));
    assert_eq!(get_wsl_drive_mount_point(Some("/c")), Some("/".to_owned()));
    assert_eq!(get_wsl_drive_mount_point(Some("/")), Some("/".to_owned()));
    assert_eq!(get_wsl_drive_mount_point(None), None);
}

#[test]
fn wsl_paths_are_those_under_the_drives() {
    let path = "/usr/bin:/mnt/c/Windows/system32:/bin:/mnt/c/Users/u/bin";
    assert_eq!(
        collect_wsl_paths(path, "/mnt"),
        vec!["/mnt/c/Windows/system32", "/mnt/c/Users/u/bin"]
    );
    assert_eq!(collect_wsl_paths(path, "/opt"), Vec::<String>::new());
}

#[test]
fn task_name_and_scripts() {
    assert_eq!(
        get_schedule_task_name("DOMAIN\\user name", "Ubuntu").unwrap(),
        "StartWSL_Ubuntu_for_DOMAIN-user-name"
    );
    assert_eq!(
        generate_schedule_posh_command(
            "{{USER_NAME}}|{{TASK_FILE_WINDOWS_PATH}}|{{TASK_NAME}}",
            "me",
            "C:\\task.xml",
            "Debian"
        )
        .unwrap(),
        "me|C:\\task.xml|StartWSL_Debian_for_me"
    );
    assert_eq!(
        generate_unschedule_posh_command("Unregister {{TASK_NAME}}", "a.b", "Arch").unwrap(),
        "Unregister StartWSL_Arch_for_a-b"
    );
    assert_eq!(
        generate_task_xml("<{{USER_NAME}}/{{DISTRO_NAME}}/{{TASK_NAME}}>", "me", "Kali"),
        "<me/Kali/StartDistrod_Kali>"
    );
}

#[test]
fn launcher_reads_command_outputs() {
    assert_eq!(
        add_user_command("alice"),
        "useradd -m --shell /bin/bash 'alice' && while ! passwd alice; do : ; done && echo 'alice ALL=(ALL:ALL) ALL' >> /etc/sudoers"
    );
    assert_eq!(query_uid(b"1000\n".to_vec()), Ok(1000));
    assert_eq!(query_uid(b"  42 ".to_vec()), Ok(42));
    assert_eq!(query_uid(b"id: nobody: no such user\n".to_vec()), Err(OutputError::NotANumber));
    assert_eq!(query_uid(vec![0xff, 0xfe]), Err(OutputError::InvalidUtf8));
    assert_eq!(
        get_windows10_build_number(b"\r\nMicrosoft Windows [Version 10.0.19044.1645]\r\n".to_vec()),
        Ok(19044)
    );
    assert_eq!(
        get_windows10_build_number(b"Microsoft Windows [Version 10.0.22000.556]".to_vec()),
        Ok(22000)
    );
    assert_eq!(
        get_windows10_build_number(b"Microsoft Windows [Version 6.1.7601]".to_vec()),
        Err(OutputError::UnexpectedFormat)
    );
    assert!(is_windows10(Ok(19044)));
    assert!(!is_windows10(Ok(22000)));
    assert!(!is_windows10(Err(OutputError::UnexpectedFormat)));
}

const PASSWD: &str = "root:x:0:0:root:/root:/bin/bash\n\
                      daemon:x:1:1:daemon:/usr/sbin:/usr/sbin/nologin\n\
                      hooked:x:1000:1000:,,,:/home/hooked:/opt/distrod/alias/bin/zsh\n";

#[test]
fn shell_hook_replaces_shells_by_aliases_and_back() {
    let file = PasswdFile::new("/etc/passwd".to_owned(), PASSWD.to_owned());
    let hooked = enable_default_shell_hook(&file).unwrap();
    assert_eq!(
        hooked.contents,
        "root:x:0:0:root:/root:/opt/distrod/alias/bin/bash\n\
         daemon:x:1:1:daemon:/usr/sbin:/opt/distrod/alias/usr/sbin/nologin\n\
         hooked:x:1000:1000:,,,:/home/hooked:/opt/distrod/alias/bin/zsh\n"
    );
    assert_eq!(
        hooked.shells,
        vec!["/opt/distrod/alias/bin/bash", "/opt/distrod/alias/usr/sbin/nologin"]
    );
    let hooked_file = PasswdFile::new("/etc/passwd".to_owned(), hooked.contents);
    let unhooked = disable_default_shell_hook(&hooked_file).unwrap();
    assert_eq!(
        unhooked.contents,
        "root:x:0:0:root:/root:/bin/bash\n\
         daemon:x:1:1:daemon:/usr/sbin:/usr/sbin/nologin\n\
         hooked:x:1000:1000:,,,:/home/hooked:/bin/zsh\n"
    );
}

#[test]
fn shell_hook_errors() {
    let bad_line = PasswdFile::new("p".to_owned(), "root:x:0\n".to_owned());
    assert!(matches!(
        enable_default_shell_hook(&bad_line),
        Err(ShellHookError::Passwd(PasswdError::MissingField(_)))
    ));
    let relative = PasswdFile::new("p".to_owned(), "u:x:1:1::/:bin/sh\n".to_owned());
    assert!(matches!(
        enable_default_shell_hook(&relative),
        Err(ShellHookError::Alias(AliasError::SourceNotAbsolute))
    ));
    let entry = PasswdView::deserialize("u:x:1:1::/:/opt/distrod/alias/bin/sh").unwrap();
    assert!(hook_entry(&entry).unwrap().is_none());
    assert_eq!(unhook_entry(&entry).unwrap().unwrap().shell, "/bin/sh");
}

#[test]
fn shells_registered_once_and_only_login_ones() {
    let existing = vec!["/bin/sh".to_owned(), "/opt/distrod/alias/bin/bash".to_owned()];
    let shells = vec![
        "/opt/distrod/alias/bin/bash".to_owned(),
        "/opt/distrod/alias/bin/zsh".to_owned(),
        "/opt/distrod/alias/usr/sbin/nologin".to_owned(),
        "/opt/distrod/alias/bin/false".to_owned(),
        "/opt/distrod/alias/bin/zsh".to_owned(),
    ];
    assert_eq!(
        shells_to_register(&existing, &shells),
        vec!["/opt/distrod/alias/bin/zsh"]
    );
}

#[test]
fn archive_names_of_a_path() {
    assert_eq!(
        gen_name_candidates_for_path("/etc/resolv.conf"),
        vec!["/etc/resolv.conf".to_owned(), "etc/resolv.conf".to_owned(), "./etc/resolv.conf".to_owned()]
    );
    assert_eq!(gen_name_candidates_for_path("/"), vec!["/".to_owned(), "".to_owned(), "./".to_owned()]);
    assert_eq!(gen_name_candidates_for_path("etc/hosts"), vec!["etc/hosts".to_owned()]);
}

#[test]
fn wsl_runs_the_command_or_the_shell() {
    let args = vec!["-c".to_owned(), "id -u".to_owned()];
    assert_eq!(
        wsl_command_args("Distrod", Some("/bin/sh"), &args),
        vec!["-d", "Distrod", "--", "/bin/sh", "-c", "id -u"].into_iter().map(String::from).collect::<Vec<_>>()
    );
    assert_eq!(wsl_command_args("Distrod", None, &args), vec!["-d".to_owned(), "Distrod".to_owned()]);
}

#[test]
fn alias_keeps_the_text_of_the_command() {
    let alias = CommandAlias::from_source("/bin//bash").unwrap();
    assert_eq!(alias.get_link_path(), "/opt/distrod/alias/bin//bash");
    let back = CommandAlias::open_from_link(alias.get_link_path()).unwrap();
    assert_eq!(back.get_source_path(), "/bin//bash");
    // The separators and `.` pieces at the ends are dropped, as `Path::strip_prefix` drops them.
    let alias = CommandAlias::from_source("/./usr/bin/").unwrap();
    assert_eq!(alias.get_link_path(), "/opt/distrod/alias/usr/bin");
    let root = CommandAlias::from_source("/").unwrap();
    assert_eq!(root.get_link_path(), "/opt/distrod/alias/");
    assert_eq!(CommandAlias::open_from_link("/opt/distrod/alias//bin/sh").unwrap().get_source_path(), "/bin/sh");
}

#[test]
fn hook_then_unhook_gives_the_passwd_text_back() {
    let text = "root:x:0:0:root:/root:/bin//bash\nu:x:1000:1000::/home/u:/usr/bin/zsh\n";
    let file = PasswdFile::new("/etc/passwd".to_owned(), text.to_owned());
    let hooked = enable_default_shell_hook(&file).unwrap();
    assert_eq!(
        hooked.contents,
        "root:x:0:0:root:/root:/opt/distrod/alias/bin//bash\nu:x:1000:1000::/home/u:/opt/distrod/alias/usr/bin/zsh\n"
    );
    let hooked_file = PasswdFile::new("/etc/passwd".to_owned(), hooked.contents);
    let back = disable_default_shell_hook(&hooked_file).unwrap();
    assert_eq!(back.contents, text);
}
