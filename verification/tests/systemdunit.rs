use distrod::systemdunit::{
    company_unit_names, company_unit_names_of, get_local_unit_path, get_override_conf_path,
    option_disabling_override, resolve_symlink_target, unit_path_candidates, SystemdUnitDisabler,
    SystemdUnitError, SystemdUnitOverride, SystemdUnitSection,
};

#[test]
fn test_simple_override() {
    let mut overrider = SystemdUnitOverride::default();
    overrider.put_section("Service".to_owned());
    assert_eq!("[Service]\n", overrider.serialize());

    // put again
    overrider.put_section("Service".to_owned());
    assert_eq!("[Service]\n", overrider.serialize());

    overrider.push_directive("Service", "Environment", "test1".to_owned());
    assert_eq!(
        "[Service]\nEnvironment=\nEnvironment=test1\n",
        overrider.serialize()
    );
    overrider.push_directive("Service", "Environment", "test2".to_owned());
    assert_eq!(
        "[Service]\nEnvironment=\nEnvironment=test1\nEnvironment=test2\n",
        overrider.serialize()
    );

    overrider.unset_directive("Service2", "Test");
    assert_eq!(
        "[Service]\nEnvironment=\nEnvironment=test1\nEnvironment=test2\n[Service2]\nTest=\n",
        overrider.serialize()
    );
    overrider.unset_directive("Service", "Environment");
    assert_eq!(
        "[Service]\nEnvironment=\n[Service2]\nTest=\n",
        overrider.serialize()
    );
}

#[test]
fn builders_chain() {
    let mut overrider = SystemdUnitOverride::new();
    overrider
        .put_section("Unit".to_owned())
        .push_directive("Service", "ExecStart", "/bin/true".to_owned())
        .unset_directive("Service", "LoadCredential");
    // The lines of two directives of one section follow each other with no
    // line break between them.
    assert_eq!(
        "[Service]\nExecStart=\nExecStart=/bin/trueLoadCredential=\n[Unit]\n",
        overrider.serialize()
    );
}

#[test]
fn sections_are_written_in_name_order() {
    let mut a = SystemdUnitOverride::new();
    a.unset_directive("B", "x");
    a.unset_directive("A", "y");
    let mut b = SystemdUnitOverride::new();
    b.unset_directive("A", "y");
    b.unset_directive("B", "x");
    assert_eq!(a.serialize(), b.serialize());
    assert_eq!(a.serialize(), "[A]\ny=\n[B]\nx=\n");
}

#[test]
fn section_text_of_one_section() {
    let mut section = SystemdUnitSection::new();
    assert_eq!(section.serialize(), "");
    section.push_directive("Environment", "A=1".to_owned());
    assert_eq!(section.serialize(), "Environment=\nEnvironment=A=1\n");
    section.unset_directive("Environment");
    assert_eq!(section.serialize(), "Environment=\n");
}

#[test]
fn unit_paths_lie_under_the_rootfs() {
    assert_eq!(
        get_local_unit_path("/tmp/root", "foo.service"),
        "/tmp/root/etc/systemd/system/foo.service"
    );
    assert_eq!(
        get_local_unit_path("/tmp/root/", "foo.service"),
        "/tmp/root/etc/systemd/system/foo.service"
    );
    assert_eq!(
        get_override_conf_path("/", "systemd-sysusers.service"),
        "/etc/systemd/system/systemd-sysusers.service.d/override.conf"
    );
    assert_eq!(
        unit_path_candidates("/r", "a.service"),
        vec![
            "/r/etc/systemd/system/a.service",
            "/r/usr/lib/systemd/system/a.service",
            "/r/lib/systemd/system/a.service",
            "/r/run/systemd/system/a.service",
        ]
    );
    let disabler = SystemdUnitDisabler::new("/r", "a.service");
    assert_eq!(disabler.name, "a.service");
    assert_eq!(disabler.rootfs_path(), "/r");
    assert_eq!(disabler.get_local_unit_path(), "/r/etc/systemd/system/a.service");
}

#[test]
fn symlink_targets_are_read_inside_the_rootfs() {
    assert_eq!(
        resolve_symlink_target("/r", "/lib/systemd/system/a.service"),
        "/r/lib/systemd/system/a.service"
    );
    assert_eq!(resolve_symlink_target("/r", "../a.service"), "../a.service");
}

const ALIASED_UNIT: &str = "[Unit]\n\
Description=unit with company units\n\
\n\
[Service]\n\
ExecStart=/bin/true\n\
\n\
[Install]\n\
WantedBy=multi-user.target\n\
Alias=multiple_alias1.service multiple_alias2.service\n\
Alias=multiple_alias3.service\n\
Also=referenced_by_also2.service\n";

#[test]
fn company_units_come_from_alias_and_also() {
    let names = company_unit_names(ALIASED_UNIT).unwrap();
    assert_eq!(
        names,
        vec![
            "multiple_alias1.service",
            "multiple_alias2.service",
            "multiple_alias3.service",
            "referenced_by_also2.service",
        ]
    );
    let unit = systemd_parser::parse_string(ALIASED_UNIT).unwrap();
    assert_eq!(company_unit_names_of(&unit), names);

    let disabler = SystemdUnitDisabler::new("/r", "multiple_alias.service");
    let company = disabler.company_units(ALIASED_UNIT).unwrap();
    assert_eq!(company.len(), 4);
    assert_eq!(company[3].name, "referenced_by_also2.service");
    assert_eq!(company[3].rootfs_path(), "/r");
}

#[test]
fn a_unit_without_install_has_no_company() {
    let unit = "[Unit]\nDescription=plain\n[Service]\nExecStart=/bin/true\n";
    assert_eq!(company_unit_names(unit).unwrap(), Vec::<String>::new());
}

#[test]
fn an_unparsable_unit_is_an_error() {
    assert_eq!(
        company_unit_names("Alias=before any section\n"),
        Err(SystemdUnitError::InvalidUnitFile)
    );
    assert!(option_disabling_override("no section=1\n", "Service", "LoadCredential").is_err());
}

#[test]
fn option_override_only_for_units_that_set_it() {
    let with = "[Unit]\nDescription=x\n[Service]\nLoadCredential=foo\n";
    let overrider = option_disabling_override(with, "Service", "LoadCredential")
        .unwrap()
        .unwrap();
    assert_eq!(overrider.serialize(), "[Service]\nLoadCredential=\n");
    let without = "[Unit]\nDescription=x\n[Service]\nExecStart=/bin/true\n";
    assert!(option_disabling_override(without, "Service", "LoadCredential")
        .unwrap()
        .is_none());
}
