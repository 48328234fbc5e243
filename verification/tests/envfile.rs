use distrod::envfile::{
    single_quote_str_for_shell, EnvFile, EnvFileLine, EnvFileLines, EnvShellScript, EnvStatement,
    PathVariable, ProfileDotDScript,
};

#[test]
fn test_simple_env_shell_script() {
    let mut env_shell_script = EnvShellScript::new();
    env_shell_script.put_env("var1".to_owned(), "val1".to_owned());
    env_shell_script.put_env("var2".to_owned(), "val2".to_owned());
    env_shell_script.put_env("var_space".to_owned(), "value with space".to_owned());
    env_shell_script.put_env("var2".to_owned(), "val2 again".to_owned());

    env_shell_script.put_path("/path/to/somewhere".to_owned());
    env_shell_script.put_path("/path/with space/somewhere".to_owned());
    env_shell_script.put_path("/path/to/somewhere".to_owned());

    let script = env_shell_script.gen_shell_script();
    assert_eq!(
        "if [ -z \"${var1:-}\" ]; then export var1='val1'; fi\n\
         if [ -z \"${var2:-}\" ]; then export var2='val2 again'; fi\n\
         if [ -z \"${var_space:-}\" ]; then export var_space='value with space'; fi\n\
         __CANDIDATE_PATH='/path/to/somewhere'\n\
         __COLON_PATH=\":${PATH}:\"\n\
         if [ \"${__COLON_PATH#*:${__CANDIDATE_PATH}:}\" = \"${__COLON_PATH}\" ]; then export PATH=\"${__CANDIDATE_PATH}:${PATH}\"; fi\n\
         unset __CANDIDATE_PATH\n\
         unset __COLON_PATH\n\
         __CANDIDATE_PATH='/path/with space/somewhere'\n\
         __COLON_PATH=\":${PATH}:\"\n\
         if [ \"${__COLON_PATH#*:${__CANDIDATE_PATH}:}\" = \"${__COLON_PATH}\" ]; then export PATH=\"${__CANDIDATE_PATH}:${PATH}\"; fi\n\
         unset __CANDIDATE_PATH\n\
         unset __COLON_PATH\n",
        &script
    );
}

#[test]
fn test_simple_variable() {
    let path_value = "/usr/local/bin:/usr/bin:/sbin:/bin";
    let mut path = PathVariable::parse(path_value);
    assert_eq!(path_value, path.serialize().as_str());

    path.put_path("/new/path1/bin");
    path.put_path("/new/path2/bin");
    path.put_path("/new/path2/bin"); // Put the same path again
    assert_eq!(
        format!("/new/path2/bin:/new/path1/bin:{}", path_value),
        path.serialize()
    );

    assert_eq!(
        vec![
            "/new/path2/bin",
            "/new/path1/bin",
            "/usr/local/bin",
            "/usr/bin",
            "/sbin",
            "/bin"
        ],
        path.iter()
    );
}

#[test]
fn test_quoted_variable() {
    // quoted simple value
    let path_value = "\"/usr/local/bin:/usr/bin:/sbin:/bin\"";
    let mut path = PathVariable::parse(path_value);
    assert_eq!(path_value, path.serialize());
    assert_eq!(
        vec!["/usr/local/bin", "/usr/bin", "/sbin", "/bin"],
        path.iter()
    );

    path.put_path("/new/path1/bin");
    path.put_path("/new/path2/bin");
    assert_eq!(
        format!(
            "\"/new/path2/bin:/new/path1/bin:{}\"",
            &path_value[1..path_value.len() - 1]
        ),
        path.serialize()
    );

    // single quote
    let path_value = "'/usr/local/bin:/usr/bin:/sbin:/bin'";
    let mut path = PathVariable::parse(path_value);
    path.put_path("/new/path1/bin");
    assert_eq!(
        "'/new/path1/bin:/usr/local/bin:/usr/bin:/sbin:/bin'",
        path.serialize()
    );
    assert_eq!(
        vec![
            "/new/path1/bin",
            "/usr/local/bin",
            "/usr/bin",
            "/sbin",
            "/bin"
        ],
        path.iter()
    );
}

#[test]
fn test_value_not_quoted_as_a_whole() {
    let path_value = "\"/mnt/c/Program Files/foo\":/usr/local/bin:/usr/bin:/sbin:/bin";
    let path = PathVariable::parse(path_value);
    assert_eq!(path_value, path.serialize());

    assert_eq!(
        vec![
            "\"/mnt/c/Program Files/foo\"",
            "/usr/local/bin",
            "/usr/bin",
            "/sbin",
            "/bin",
        ],
        path.iter()
    );

    let path_value = "/usr/local/bin:/usr/bin:/sbin:/bin:\"/mnt/c/Program Files/foo\"";
    let path = PathVariable::parse(path_value);
    assert_eq!(path_value, path.serialize());

    assert_eq!(
        vec![
            "/usr/local/bin",
            "/usr/bin",
            "/sbin",
            "/bin",
            "\"/mnt/c/Program Files/foo\"",
        ],
        path.iter()
    );

    let path_value = "\"/usr/local/bin\":/usr/bin:/sbin:/bin:\"/mnt/c/Program Files/foo\"";
    let path = PathVariable::parse(path_value);
    assert_eq!(path_value, path.serialize());

    assert_eq!(
        vec![
            "\"/usr/local/bin\"",
            "/usr/bin",
            "/sbin",
            "/bin",
            "\"/mnt/c/Program Files/foo\"",
        ],
        path.iter()
    );

    // quoted single value is treated as "a value the first value of which is quoted", so it's not
    // quoted "as a whole"
    let path_value = "\"/bin\"";
    let mut path = PathVariable::parse(path_value);
    assert_eq!(path_value, path.serialize());

    assert_eq!(vec!["\"/bin\""], path.iter());

    path.put_path("/new/path1/bin");
    path.put_path("/new/path2/bin");
    assert_eq!("/new/path2/bin:/new/path1/bin:\"/bin\"", path.serialize());

    // Don't support too tricky values
    let path_value =
        "\"/mnt/c/Program Files\"/foo:/usr/bin:/sbin:/bin:/some/path/include/quote\\\"";
    let mut path = PathVariable::parse(path_value);
    path.put_path("/usr/local/bin");
    assert_ne!("/usr/local/bin:\"/mnt/c/Program Files\"/foo:/usr/bin:/sbin:/bin:/some/path/include/quote\\\"", path.serialize());
}

#[test]
fn test_parse_env_statement_simple() {
    let (_, statement) = EnvStatement::parse("PATH=hoge:fuga:piyo".as_bytes()).unwrap();
    println!("Statement: {:#?}", &statement);
    assert_eq!("PATH", statement.key);
    assert_eq!("hoge:fuga:piyo", statement.value);
    assert_eq!("", statement.leading_characters);
    assert_eq!("", statement.following_characters);
    assert_eq!("PATH=hoge:fuga:piyo\n", statement.serialize());

    // same value with new line
    let (_, statement) = EnvStatement::parse("PATH=hoge:fuga:piyo\n".as_bytes()).unwrap();
    println!("Statement: {:#?}", &statement);
    assert_eq!("PATH", statement.key);
    assert_eq!("hoge:fuga:piyo", statement.value);
    assert_eq!("", statement.leading_characters);
    assert_eq!("", statement.following_characters);
    assert_eq!("PATH=hoge:fuga:piyo\n", statement.serialize());

    // with comment and exprot
    let (_, statement) =
        EnvStatement::parse(" export  PATH=hoge:fuga:piyo  # comment".as_bytes()).unwrap();
    println!("Statement: {:#?}", &statement);
    assert_eq!("PATH", statement.key);
    assert_eq!("hoge:fuga:piyo", statement.value);
    assert_eq!(" export  ", statement.leading_characters);
    assert_eq!("  # comment", statement.following_characters);
    assert_eq!(
        " export  PATH=hoge:fuga:piyo  # comment\n",
        statement.serialize()
    );
}

#[test]
fn test_parse_env_statement_empty() {
    assert!(EnvStatement::parse("".as_bytes()).is_err());

    let (_, statement) = EnvStatement::parse("PATH=".as_bytes()).unwrap();
    println!("Statement: {:#?}", &statement);
    assert_eq!("PATH", statement.key);
    assert_eq!("", statement.value);
    assert_eq!("", statement.leading_characters);
    assert_eq!("", statement.following_characters);
    assert_eq!("PATH=\n", statement.serialize());

    let (_, statement) = EnvStatement::parse("export PATH=  # no value".as_bytes()).unwrap();
    println!("Statement: {:#?}", &statement);
    assert_eq!("PATH", statement.key);
    assert_eq!("", statement.value);
    assert_eq!("export ", statement.leading_characters);
    assert_eq!("  # no value", statement.following_characters);
    assert_eq!("export PATH=  # no value\n", statement.serialize());
}

#[test]
fn test_parse_env_statement_continued_line() {
    let val = "hoge:fuga:piyo\\\n\
                     :new_line";
    let line = format!("PATH={}  # and comment\n", val);
    let (_, statement) = EnvStatement::parse(line.as_bytes()).unwrap();
    println!("Statement: {:#?}", &statement);
    assert_eq!("PATH", statement.key);
    assert_eq!(val, statement.value);
    assert_eq!("", statement.leading_characters);
    assert_eq!("  # and comment", statement.following_characters);
    assert_eq!(line, statement.serialize());
}

#[test]
fn test_parse_env_statement_strange() {
    let (_, statement) = EnvStatement::parse("VAR=A=B=C".as_bytes()).unwrap();
    println!("Statement: {:#?}", &statement);
    assert_eq!("VAR", statement.key);
    assert_eq!("A=B=C", statement.value);
    assert_eq!("", statement.leading_characters);
    assert_eq!("", statement.following_characters);
    assert_eq!("VAR=A=B=C\n", statement.serialize());

    let (_, statement) = EnvStatement::parse("VAR=A B C # comment".as_bytes()).unwrap();
    println!("Statement: {:#?}", &statement);
    assert_eq!("VAR", statement.key);
    assert_eq!("A B C", statement.value);
    assert_eq!("", statement.leading_characters);
    assert_eq!(" # comment", statement.following_characters);
    assert_eq!("VAR=A B C # comment\n", statement.serialize());

    let (_, statement) = EnvStatement::parse("export VAR=😀 # emoji 😀".as_bytes()).unwrap();
    println!("Statement: {:#?}", &statement);
    assert_eq!("VAR", statement.key);
    assert_eq!("😀", statement.value);
    assert_eq!("export ", statement.leading_characters);
    assert_eq!(" # emoji 😀", statement.following_characters);
    assert_eq!("export VAR=😀 # emoji 😀\n", statement.serialize());
}

#[test]
fn test_parse_env_file_line() {
    let (_, line) = EnvFileLine::parse("# this is comment".as_bytes()).unwrap();
    println!("line: {:#?}", &line);
    assert!(matches!(line, EnvFileLine::Other(_)));
    if let EnvFileLine::Other(str) = &line {
        assert_eq!("# this is comment\n", str);
    }
    assert_eq!("# this is comment\n", line.serialize());

    // empty line
    let (_, line) = EnvFileLine::parse("\n".as_bytes()).unwrap();
    println!("line: {:#?}", &line);
    assert!(matches!(line, EnvFileLine::Other(_)));
    assert_eq!("\n", line.serialize());

    // abnormal line
    let (_, line) = EnvFileLine::parse("==fawe=f= =".as_bytes()).unwrap();
    println!("line: {:#?}", &line);
    assert!(matches!(line, EnvFileLine::Other(_)));
    assert_eq!("==fawe=f= =\n", line.serialize());
}

#[test]
fn test_parse_env_file_lines() {
    let src = "\
    # This is comment\n\
    VAR=VALUE\n\
    \n\
    \n\
    # another comment \n\
    PATH=path1:path2\\\n\
    path3";
    let (_, lines) = EnvFileLines::parse(src.as_bytes()).unwrap();
    println!("lines: {:#?}", &lines);
    assert_eq!(lines.0.len(), 6);
    assert!(matches!(lines.0[0], EnvFileLine::Other(_)));
    assert!(matches!(lines.0[1], EnvFileLine::Env(_)));
    assert!(matches!(lines.0[2], EnvFileLine::Other(_)));
    assert!(matches!(lines.0[3], EnvFileLine::Other(_)));
    assert!(matches!(lines.0[4], EnvFileLine::Other(_)));
    assert!(matches!(lines.0[5], EnvFileLine::Env(_)));
    assert_eq!(format!("{}\n", src), lines.serialize())
}

#[test]
fn test_get() {
    let cont = "\
        PATH=test:foo:bar\n\
        FOO=foo\n\
        BAR=bar\n\
        BAZ=baz=baz\n\
        FOO=foo2\n\
    ";
    let env = EnvFile::parse_file("/etc/environment".to_owned(), cont.as_bytes());

    println!("EnvFile: {:#?}", &env);
    assert_eq!(env.get_env("None"), None);
    assert_eq!(env.get_env("PATH"), Some("test:foo:bar"));
    assert_eq!(env.get_env("BAZ"), Some("baz=baz"));
    assert_eq!(
        env.get_env("FOO"),
        Some("foo2"),
        "The last value is obtained if the environment has multiple values."
    );
}

#[test]
fn test_put_and_save() {
    let cont = "\
            # This is a comment line
		    PATH=test:foo:bar  #comment preserved \n\
			FOO=foo\n\
            # This is another comment line
			BAR=bar\n\
			BAZ=baz=baz\n\
			FOO=foo2\n\
		";
    let mut env = EnvFile::parse_file("/etc/environment".to_owned(), cont.as_bytes());

    env.put_env("NEW1".to_owned(), "NEW1".to_owned());
    let path = format!("path:{}", env.get_env("PATH").unwrap());
    env.put_env("PATH".to_owned(), path);
    env.put_env("FOO".to_owned(), "foo3".to_owned());

    assert_eq!(env.get_env("None"), None);
    assert_eq!(env.get_env("NEW1"), Some("'NEW1'"));
    assert_eq!(env.get_env("PATH"), Some("'path:test:foo:bar'"));
    assert_eq!(env.get_env("FOO"), Some("'foo3'"));

    let expected = "\
            # This is a comment line
		    PATH='path:test:foo:bar'  #comment preserved \n\
			FOO=foo\n\
            # This is another comment line
			BAR=bar\n\
			BAZ=baz=baz\n\
			FOO='foo3'\n\
			NEW1='NEW1'\n\
		";
    assert_eq!(env.lines().serialize(), expected);
}

#[test]
fn test_empty_env_file() {
    let mut env = EnvFile::parse_file("/etc/environment".to_owned(), "".as_bytes());
    env.put_env("TEST".to_owned(), "VALUE".to_owned());
    assert_eq!(env.lines().serialize(), "TEST='VALUE'\n");
}

#[test]
fn test_open_nonexistential_env_file() {
    // A file that does not exist is read as no contents at all.
    let mut env = EnvFile::parse_file("/tmp/dont_exist".to_owned(), &[]);
    env.put_env("TEST".to_owned(), "VALUE".to_owned());
    let expected = "\
		    TEST='VALUE'\n\
		";
    assert_eq!(env.lines().serialize(), expected);
}

#[test]
fn put_path_prepends_to_the_default_path() {
    let mut env = EnvFile::parse_file("/etc/environment".to_owned(), "".as_bytes());
    env.put_path("/opt/distrod/bin".to_owned());
    assert_eq!(
        env.get_env("PATH"),
        Some("'/opt/distrod/bin:/usr/local/sbin:/usr/local/bin:/usr/sbin:/usr/bin:/sbin:/bin:/usr/games:/usr/local/games'")
    );
}

#[test]
fn put_env_then_get_env_gives_the_quoted_value() {
    let mut env = EnvFile::parse_file("e".to_owned(), "A=1\nB=2\nA=3\n".as_bytes());
    env.put_env("A".to_owned(), "it's".to_owned());
    assert_eq!(env.get_env("A"), Some("'it'\"'\"'s'"));
    assert_eq!(env.get_env("B"), Some("2"));
    assert_eq!(env.lines().serialize(), "A=1\nB=2\nA='it'\"'\"'s'\n");
}

#[test]
fn single_quoting_escapes_quotes() {
    assert_eq!(single_quote_str_for_shell("plain"), "'plain'");
    assert_eq!(single_quote_str_for_shell("a'b"), "'a'\"'\"'b'");
    assert_eq!(single_quote_str_for_shell(""), "''");
}

#[test]
fn lines_serialize_back_to_the_text() {
    for text in ["A=b\n# c\n\nexport D=e # f\n", "X=1", "", "==\n  \n"] {
        let (n, lines) = EnvFileLines::parse(text.as_bytes()).unwrap();
        assert_eq!(n, text.chars().count());
        let expected = if text.is_empty() || text.ends_with('\n') {
            text.to_owned()
        } else {
            format!("{}\n", text)
        };
        assert_eq!(lines.serialize(), expected);
    }
}

#[test]
fn path_variable_round_trip_without_puts() {
    for value in ["/a:/b", "'/a:/b'", "\"/a\"", "", "/a::/b"] {
        assert_eq!(PathVariable::parse(value).serialize(), value);
    }
}

#[test]
fn profile_dot_d_script_lives_in_profile_d() {
    let mut script = ProfileDotDScript::open("distrod.sh".to_owned(), "/var/lib/distro");
    script.put_env("K".to_owned(), "v".to_owned());
    script.put_path("/opt/bin".to_owned());
    assert_eq!(script.script_path(), "/var/lib/distro/etc/profile.d/distrod.sh");
    let expected = "if [ -z \"${K:-}\" ]; then export K='v'; fi\n\
                    __CANDIDATE_PATH='/opt/bin'\n\
                    __COLON_PATH=\":${PATH}:\"\n\
                    if [ \"${__COLON_PATH#*:${__CANDIDATE_PATH}:}\" = \"${__COLON_PATH}\" ]; then export PATH=\"${__CANDIDATE_PATH}:${PATH}\"; fi\n\
                    unset __CANDIDATE_PATH\n\
                    unset __COLON_PATH\n";
    assert_eq!(script.script(), expected);
}

#[test]
fn names_with_underscores_are_variables() {
    let env = EnvFile::parse_file(
        "/etc/environment".to_owned(),
        "WSL_INTEROP=/run/WSL/12_interop\nOTHER_ENV1=1\n".as_bytes(),
    );
    assert_eq!(env.get_env("WSL_INTEROP"), Some("/run/WSL/12_interop"));
    assert_eq!(env.get_env("OTHER_ENV1"), Some("1"));
}
