use distrod::cli_ui::{choose_from_list, default_name, logger_for, start_choice, ChoiceError, ChoiceStep, LoggerInitializer};
use distrod::commands::{
    alias_exec_args, default_install_dir, eth0_ipv4, file_name, get_listen_address,
    init_launch_delay, is_executed_as_alias, local_image_name, strip_wslenv_for_distrod_exec_delay,
    ProxyOpts,
};
use distrod::container_cmd::{
    drive_bind, drive_binds, init_command, old_root_after_special_dir, parse_mount_line,
    special_dir_bind_source, umount_order, wsl_special_dirs,
};
use distrod::container_org_image::{
    files_from_listing, newest_file, parse_apache_file_list, sort_files_by_time,
    ContainerOrgImageList, FileOnApache, ListingError,
};
use distrod::distro_image::{DefaultImageFetcher, DistroImage, DistroImageFile};

const LISTING: &str = r#"<!DOCTYPE HTML PUBLIC "-//W3C//DTD HTML 3.2 Final//EN">
<html>
 <head><title>Index of /images</title></head>
 <body>
<h1>Index of /images</h1>
  <table>
   <tr><th valign="top"><img src="/icons/blank.gif" alt="[ICO]"></th><th><a href="?C=N;O=D">Name</a></th><th><a href="?C=M;O=A">Last modified</a></th><th><a href="?C=S;O=A">Size</a></th></tr>
   <tr><th colspan="4"><hr></th></tr>
<tr><td valign="top"><img src="/icons/back.gif" alt="[PARENTDIR]"></td><td><a href="/">Parent Directory</a></td><td>&nbsp;</td><td align="right">  - </td></tr>
<tr><td valign="top"><img src="/icons/folder.gif" alt="[DIR]"></td><td><a href="./ubuntu/">ubuntu/</a></td><td align="right">2021-08-01 12:34  </td><td align="right">  - </td></tr>
<tr><td valign="top"><img src="/icons/folder.gif" alt="[DIR]"></td><td><a href="debian/">debian/</a></td><td align="right">2021-07-01 01:02  </td><td align="right">  - </td></tr>
   <tr><th colspan="4"><hr></th></tr>
</table>
</body></html>
"#;

fn file(name: &str, url: &str, t: i64) -> FileOnApache {
    FileOnApache {
        name: name.to_owned(),
        url: url.to_owned(),
        last_modified: t,
    }
}

#[test]
fn apache_listing_is_read() {
    let files = parse_apache_file_list(LISTING).unwrap();
    assert_eq!(files.len(), 2);
    assert_eq!(files[0].name, "ubuntu");
    assert_eq!(files[0].url, "ubuntu/");
    assert_eq!(files[0].last_modified, 1627821240);
    assert_eq!(files[1].name, "debian");
    assert_eq!(files[1].url, "debian/");
    assert_eq!(files[1].last_modified, 1625101320);
}

#[test]
fn empty_or_broken_listings_are_errors() {
    let empty = "<html><body><table><tbody>\
        <tr><td></td><td><a href=\"/\">Parent Directory</a></td><td>&nbsp;</td></tr>\
        </tbody></table></body></html>";
    assert!(matches!(
        parse_apache_file_list(empty),
        Err(ListingError::NotAvailable)
    ));
    let links = vec![
        (Some("Parent".to_owned()), Some("/".to_owned())),
        (Some("a/".to_owned()), Some("a/".to_owned())),
    ];
    let dates = vec![(None, None), (Some("yesterday".to_owned()), None)];
    assert!(matches!(
        files_from_listing(&links, &dates),
        Err(ListingError::InvalidDate)
    ));
    let no_href = vec![(None, None), (Some("a/".to_owned()), None)];
    assert!(matches!(
        files_from_listing(&no_href, &dates),
        Err(ListingError::NoHref)
    ));
}

#[test]
fn versions_oldest_first_and_newest_build() {
    let distros = ContainerOrgImageList
        .distros(&vec![file("ubuntu", "ubuntu/", 10), file("alpine", "alpine/", 5)]);
    assert_eq!(distros.1, DefaultImageFetcher::Name("ubuntu".to_owned()));
    assert_eq!(distros.0[1].get_name(), "alpine");
    assert_eq!(distros.0[1].listing_path(), "images/alpine/");

    let alpine = &distros.0[1];
    let (versions, default) = alpine.versions(&vec![
        file("3.14", "3.14/", 30),
        file("edge", "edge/", 10),
        file("3.13", "3.13/", 20),
        file("3.12", "3.12/", 10),
    ]);
    let names: Vec<&str> = versions.iter().map(|v| v.get_name()).collect();
    assert_eq!(names, vec!["edge", "3.12", "3.13", "3.14"]);
    assert_eq!(default, DefaultImageFetcher::Index(3));
    assert_eq!(versions[0].listing_path(), "images/alpine/edge/amd64/default");

    let builds = vec![file("a", "20210801_01:02/", 5), file("b", "20210802_01:02/", 7), file("c", "x/", 7)];
    assert_eq!(newest_file(&builds), 1);
    let image = versions[3].image(&builds);
    assert_eq!(image.name, "alpine-3.14");
    assert_eq!(
        image.image,
        DistroImageFile::Url(
            "https://images.linuxcontainers.org/images/alpine/3.14/amd64/default/20210802_01:02/rootfs.tar.xz"
                .to_owned()
        )
    );

    let ubuntu = &distros.0[0];
    assert_eq!(
        ubuntu.versions(&vec![file("focal", "focal/", 1)]).1,
        DefaultImageFetcher::Name("focal".to_owned())
    );
}

#[test]
fn time_sort_is_stable() {
    let sorted = sort_files_by_time(&vec![file("x", "1", 2), file("y", "2", 1), file("z", "3", 2)]);
    let names: Vec<&str> = sorted.iter().map(|f| f.name.as_str()).collect();
    assert_eq!(names, vec!["y", "x", "z"]);
}

#[test]
fn user_choices_by_name_index_or_default() {
    let names = vec!["ubuntu".to_owned(), "debian".to_owned(), "alpine".to_owned()];
    let default = default_name(&names, &DefaultImageFetcher::Index(1));
    assert_eq!(default, "debian");
    assert_eq!(choose_from_list(&names, &default, "\n"), Some(1));
    assert_eq!(choose_from_list(&names, &default, "alpine\n"), Some(2));
    assert_eq!(choose_from_list(&names, &default, "1\n"), Some(0));
    assert_eq!(choose_from_list(&names, &default, "4\n"), None);
    assert_eq!(choose_from_list(&names, &default, "0"), None);
    assert_eq!(choose_from_list(&names, &default, "fedora"), None);
    assert_eq!(
        default_name(&names, &DefaultImageFetcher::Name("focal".to_owned())),
        "focal"
    );
}

#[test]
fn a_choice_drops_only_trailing_white_space() {
    let names = vec!["ubuntu".to_owned(), "debian".to_owned(), "alpine".to_owned()];
    let default = "debian".to_owned();
    assert_eq!(choose_from_list(&names, &default, "alpine\t\u{3000}\r\n"), Some(2));
    assert_eq!(choose_from_list(&names, &default, " \u{a0}\n"), Some(1));
    assert_eq!(choose_from_list(&names, &default, " alpine\n"), None);
    assert_eq!(choose_from_list(&names, &default, "3\u{2003}"), Some(2));
}

#[test]
fn logger_setup() {
    let mut init = LoggerInitializer::default();
    init.with_kmsg(true).with_kmsg_log_level("warn".to_owned());
    assert!(init.logs_kmsg());
    assert_eq!(init.kmsg_log_level(), Some("warn".to_owned()));
    assert_eq!(init.terminal_log_level(Some("debug".to_owned())), Some("debug".to_owned()));
    init.with_log_level("trace".to_owned());
    assert_eq!(init.terminal_log_level(Some("debug".to_owned())), Some("trace".to_owned()));
    let plain = logger_for(None);
    assert!(!plain.logs_kmsg());
    assert_eq!(plain.terminal_log_level(None), None);
}

#[test]
fn alias_and_exec_decisions() {
    assert!(is_executed_as_alias("/opt/distrod/alias/bin/bash"));
    assert!(!is_executed_as_alias("/opt/distrod/alias/distrod"));
    assert!(!is_executed_as_alias("/opt/distrod/distrod"));
    assert_eq!(file_name("/a/b.txt"), Some("b.txt".to_owned()));
    assert_eq!(file_name("/a/.."), None);
    assert_eq!(
        alias_exec_args("/bin/bash", &vec!["bash".to_owned(), "-l".to_owned()]),
        vec!["distrod-exec", "--", "/bin/bash", "bash", "-l"]
    );
    assert_eq!(init_launch_delay("15"), Some(15));
    assert_eq!(init_launch_delay("x"), None);
    assert_eq!(
        strip_wslenv_for_distrod_exec_delay("WT_SESSION::DISTROD_EXEC_INIT_LAUNCH_DELAY"),
        Some("WT_SESSION:".to_owned())
    );
    assert_eq!(strip_wslenv_for_distrod_exec_delay("WT_SESSION"), None);
}

#[test]
fn local_images_are_named_after_the_file() {
    assert_eq!(
        local_image_name("/home/u/ubuntu.tar.xz"),
        Some("local-ubuntu".to_owned())
    );
    assert_eq!(local_image_name("image.tgz"), Some("local-image".to_owned()));
    assert_eq!(local_image_name(".hidden"), Some("local-.hidden".to_owned()));
    assert_eq!(local_image_name("/"), None);
    assert_eq!(
        default_install_dir("/var/lib/distrod", "local-ubuntu"),
        "/var/lib/distrod/local-ubuntu"
    );
}

#[test]
fn proxy_forwards_and_show() {
    let opts = ProxyOpts {
        dest_addr: "172.20.0.1".to_owned(),
        tcp4: vec![80, 0, 443],
    };
    assert_eq!(
        opts.forwards(),
        vec![(80, "172.20.0.1:80".to_owned()), (443, "172.20.0.1:443".to_owned())]
    );
    assert_eq!(get_listen_address(8080), "0.0.0.0:8080");
    let ifaces = vec![
        ("lo".to_owned(), Some([127, 0, 0, 1])),
        ("eth0".to_owned(), None),
        ("eth0".to_owned(), Some([172, 20, 1, 2])),
    ];
    assert_eq!(eth0_ipv4(&ifaces), Some([172, 20, 1, 2]));
    assert_eq!(eth0_ipv4(&vec![]), None);
}

#[test]
fn container_prototype_mounts() {
    assert_eq!(
        parse_mount_line("C:\\ /mnt/c 9p rw,noatime 0 0"),
        Some(("/mnt/c".to_owned(), "9p".to_owned()))
    );
    assert_eq!(parse_mount_line("short line"), None);
    assert_eq!(init_command(None), vec!["/sbin/init", "--unit=multi-user.target"]);
    assert_eq!(wsl_special_dirs().len(), 8);
    let src = special_dir_bind_source("/old", "/proc/sys/fs/binfmt_misc");
    assert_eq!(src, "/old/proc/sys/fs/binfmt_misc");
    assert_eq!(old_root_after_special_dir(&src, "/proc/sys/fs/binfmt_misc", true), "/old");
    assert_eq!(
        old_root_after_special_dir(&src, "/proc/sys/fs/binfmt_misc", false),
        "/old/proc/sys/fs/binfmt_misc"
    );
    assert_eq!(drive_bind("/old", "/old/mnt/c", "9p"), Some("/mnt/c".to_owned()));
    assert_eq!(drive_bind("/old", "/old/init", "9p"), None);
    assert_eq!(drive_bind("/old", "/old/mnt/c", "ext4"), None);
    assert_eq!(drive_bind("/old", "/mnt/c", "9p"), None);
    let paths = vec![
        "/old".to_owned(),
        "/old/a".to_owned(),
        "/old/a/bcd".to_owned(),
        "/proc".to_owned(),
        "/old/xyz".to_owned(),
    ];
    assert_eq!(umount_order("/old", &paths), vec!["/old/a/bcd", "/old/xyz", "/old/a"]);
}

#[test]
fn a_choice_starts_from_a_non_empty_list() {
    let names = vec!["local".to_owned(), "linuxcontainers.org".to_owned()];
    assert_eq!(
        start_choice(&ChoiceStep::List(names.clone(), DefaultImageFetcher::Index(1))),
        Ok("linuxcontainers.org".to_owned())
    );
    assert_eq!(
        start_choice(&ChoiceStep::List(names, DefaultImageFetcher::Name("ubuntu".to_owned()))),
        Ok("ubuntu".to_owned())
    );
    assert_eq!(
        start_choice(&ChoiceStep::List(vec![], DefaultImageFetcher::Index(0))),
        Err(ChoiceError::EmptyList)
    );
    let image = DistroImage { name: "ubuntu".to_owned(), image: DistroImageFile::Url("u".to_owned()) };
    assert_eq!(start_choice(&ChoiceStep::Image(image)), Err(ChoiceError::NotAList));
}

#[test]
fn drive_binds_are_the_9p_mounts_under_the_old_root() {
    let mounts: Vec<(String, String)> = vec![
        ("/old/mnt/c", "9p"),
        ("/old/init", "9p"),
        ("/old/proc", "proc"),
        ("/mnt/d", "9p"),
        ("/old/mnt/d", "9p"),
    ]
    .into_iter()
    .map(|(p, t)| (p.to_owned(), t.to_owned()))
    .collect();
    assert_eq!(
        drive_binds("/old", &mounts),
        vec![
            ("/old/mnt/c".to_owned(), "/mnt/c".to_owned()),
            ("/old/mnt/d".to_owned(), "/mnt/d".to_owned()),
        ]
    );
}
