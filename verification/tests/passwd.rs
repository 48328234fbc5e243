use distrod::distrod_config::get_alias_dir;
use distrod::passwd::{Passwd, PasswdError, PasswdField, PasswdFile, PasswdView};
use std::path::{Path, PathBuf};

const ROOT: PasswdView = PasswdView {
    name: "root",
    passwd: "x",
    uid: 0,
    gid: 0,
    gecos: "root",
    dir: "/root",
    shell: "/bin/bash",
};

const NULLPO: PasswdView = PasswdView {
    name: "nullpo",
    passwd: "x",
    uid: 1000,
    gid: 1000,
    gecos: ",,,",
    dir: "/home/nullpo",
    shell: "/bin/bash",
};

const FOO: PasswdView = PasswdView {
    name: "foo",
    passwd: "x",
    uid: 1000,
    gid: 1000,
    gecos: ",,,",
    dir: "",
    shell: "/sbin/nologin",
};

const CONTENTS: &str = "root:x:0:0:root:/root:/bin/bash\n\
                        nullpo:x:1000:1000:,,,:/home/nullpo:/bin/bash\n\
                        foo:x:1000:1000:,,,::/sbin/nologin\n";

fn passwd_file() -> PasswdFile {
    PasswdFile::new("/etc/passwd".to_owned(), CONTENTS.to_owned())
}

/// Runs an update over every line, as the caller of `start_update` does.
fn update_with(
    file: &PasswdFile,
    updater: fn(PasswdView) -> Result<Option<Passwd>, PasswdError>,
) -> Result<String, PasswdError> {
    let mut u = file.start_update();
    while let Some(entry) = u.current() {
        let new = updater(entry?)?;
        u.apply(new.as_ref());
    }
    Ok(u.finish())
}

#[test]
fn passwd_test_serialize_passwd() {
    assert_eq!("root:x:0:0:root:/root:/bin/bash", ROOT.serialize());
    assert_eq!(
        "nullpo:x:1000:1000:,,,:/home/nullpo:/bin/bash",
        NULLPO.serialize()
    );
    assert_eq!("foo:x:1000:1000:,,,::/sbin/nologin", FOO.serialize());
}

#[test]
fn passwd_test_deserialize_passwd() {
    assert_eq!(
        ROOT,
        PasswdView::deserialize("root:x:0:0:root:/root:/bin/bash").unwrap()
    );
    assert_eq!(
        NULLPO,
        PasswdView::deserialize("nullpo:x:1000:1000:,,,:/home/nullpo:/bin/bash").unwrap()
    );
    assert_eq!(
        FOO,
        PasswdView::deserialize("foo:x:1000:1000:,,,::/sbin/nologin").unwrap()
    );
}

#[test]
fn passwd_test_read_passwd_file() {
    let passwd_file = passwd_file();
    let mut entries = passwd_file.entries();
    assert_eq!(ROOT, entries.next().unwrap().unwrap());
    assert_eq!(NULLPO, entries.next().unwrap().unwrap());
    assert_eq!(FOO, entries.next().unwrap().unwrap());
}

#[test]
fn passwd_test_update_passwd_file_no_update() {
    let mut passwd_file = passwd_file();
    let orig_cont = passwd_file.contents().to_owned();
    let new_cont = update_with(&passwd_file, |_| Ok(None)).unwrap();
    passwd_file.set_contents(new_cont);

    let mut entries = passwd_file.entries();
    assert_eq!(ROOT, entries.next().unwrap().unwrap());
    assert_eq!(NULLPO, entries.next().unwrap().unwrap());
    assert_eq!(FOO, entries.next().unwrap().unwrap());

    assert_eq!(orig_cont, passwd_file.contents());
}

#[test]
fn passwd_test_update_passwd_file() {
    let passwd_file = passwd_file();
    let new_cont = update_with(&passwd_file, |passwd| {
        let mut new_shell = PathBuf::from(get_alias_dir());
        new_shell.push(Path::new(passwd.shell).strip_prefix("/").unwrap());
        Ok(Some(Passwd {
            name: passwd.name.to_owned(),
            passwd: passwd.passwd.to_owned(),
            uid: passwd.uid,
            gid: passwd.gid,
            gecos: passwd.gecos.to_owned(),
            dir: passwd.dir.to_owned(),
            shell: new_shell.to_str().map(|s| s.to_owned()).unwrap(),
        }))
    })
    .unwrap();

    let expected = "root:x:0:0:root:/root:/opt/distrod/alias/bin/bash\n\
                    nullpo:x:1000:1000:,,,:/home/nullpo:/opt/distrod/alias/bin/bash\n\
                    foo:x:1000:1000:,,,::/opt/distrod/alias/sbin/nologin\n";
    assert_eq!(expected, new_cont);
}

#[test]
fn deserialize_reports_the_missing_field() {
    assert_eq!(
        PasswdView::deserialize(""),
        Err(PasswdError::MissingField(PasswdField::Passwd))
    );
    assert_eq!(
        PasswdView::deserialize("root:x"),
        Err(PasswdError::MissingField(PasswdField::Uid))
    );
    assert_eq!(
        PasswdView::deserialize("root:x:0"),
        Err(PasswdError::MissingField(PasswdField::Gid))
    );
    assert_eq!(
        PasswdView::deserialize("root:x:0:0"),
        Err(PasswdError::MissingField(PasswdField::Gecos))
    );
    assert_eq!(
        PasswdView::deserialize("root:x:0:0:root"),
        Err(PasswdError::MissingField(PasswdField::Dir))
    );
    assert_eq!(
        PasswdView::deserialize("root:x:0:0:root:/root"),
        Err(PasswdError::MissingField(PasswdField::Shell))
    );
}

#[test]
fn deserialize_rejects_bad_ids() {
    assert_eq!(
        PasswdView::deserialize("root:x:zero:0:root:/root:/bin/bash"),
        Err(PasswdError::InvalidUid)
    );
    assert_eq!(
        PasswdView::deserialize("root:x:0:-1:root:/root:/bin/bash"),
        Err(PasswdError::InvalidGid)
    );
    assert_eq!(
        PasswdView::deserialize("root:x:4294967296:0:root:/root:/bin/bash"),
        Err(PasswdError::InvalidUid)
    );
    // extra fields are ignored, as `split` leaves them unread
    assert_eq!(
        ROOT,
        PasswdView::deserialize("root:x:0:0:root:/root:/bin/bash:extra").unwrap()
    );
}

#[test]
fn serialize_then_deserialize_gives_the_entry() {
    for entry in [ROOT, NULLPO, FOO] {
        let line = entry.serialize();
        assert_eq!(entry, PasswdView::deserialize(&line).unwrap());
    }
}

#[test]
fn lookups_stop_at_the_first_match_or_bad_line() {
    let file = passwd_file();
    assert_eq!(file.get_ent_by_name("nullpo"), Ok(Some(NULLPO)));
    assert_eq!(file.get_ent_by_uid(1000), Ok(Some(NULLPO)));
    assert_eq!(file.get_ent_by_uid(0), Ok(Some(ROOT)));
    // the empty piece after the final line break is not an entry
    assert_eq!(
        file.get_ent_by_name("nobody"),
        Err(PasswdError::MissingField(PasswdField::Passwd))
    );
    let no_final_break = PasswdFile::new(
        "/etc/passwd".to_owned(),
        "root:x:0:0:root:/root:/bin/bash".to_owned(),
    );
    assert_eq!(no_final_break.get_ent_by_uid(7), Ok(None));
}

#[test]
fn entries_iterator_ends() {
    let file = PasswdFile::new("p".to_owned(), "root:x:0:0:root:/root:/bin/bash".to_owned());
    let mut entries = file.entries();
    assert_eq!(ROOT, entries.next().unwrap().unwrap());
    assert!(entries.next().is_none());
    assert!(entries.next().is_none());
}

#[test]
fn passwd_view_and_from_view_keep_the_fields() {
    let owned = Passwd::from_view(NULLPO);
    assert_eq!(owned.view(), NULLPO);
    assert_eq!(owned.shell, "/bin/bash");
}

#[test]
fn update_drops_carriage_returns_and_ends_lines() {
    let file = PasswdFile::new(
        "p".to_owned(),
        "root:x:0:0:root:/root:/bin/bash\r\nfoo:x:1000:1000:,,,::/sbin/nologin".to_owned(),
    );
    let new_cont = update_with(&file, |_| Ok(None)).unwrap();
    assert_eq!(
        "root:x:0:0:root:/root:/bin/bash\nfoo:x:1000:1000:,,,::/sbin/nologin\n",
        new_cont
    );
}
