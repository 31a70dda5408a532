use preopener::table::{Access, OpenError, Preopen};
use preopener::{Error, MagicLevel, Preopener};

#[derive(Eq, PartialEq, Debug)]
struct Process {
    arg: String,
    preopens: Vec<Preopen>,
}

impl Process {
    fn new(arg: &str, preopens: &[Preopen]) -> Self {
        Self {
            arg: arg.to_owned(),
            preopens: preopens.to_vec(),
        }
    }
}

fn do_process(arg: &str) -> Result<Process, Error> {
    let mut preopener = Preopener::new(MagicLevel::Auto);
    let arg = preopener.process_args(vec![arg.to_owned()])?;
    Ok(Process {
        arg: arg[0].clone(),
        preopens: preopener.as_slice().to_vec(),
    })
}

fn do_process_os(arg: &[u8]) -> Result<Process, Error> {
    let mut preopener = Preopener::new(MagicLevel::Auto);
    let arg = preopener.process_args_os(vec![arg.to_owned()])?;
    Ok(Process {
        arg: arg[0].clone(),
        preopens: preopener.as_slice().to_vec(),
    })
}

#[test]
fn preopener_test_error() {
    let args = ["%", "%%", "%%%", "%/foo"];
    for arg in args {
        assert!(do_process(arg).is_err());
    }
}

#[test]
fn test_invalid() {
    let args = [
        &b"hi/\xc0"[..],
        &b"hello/\xff"[..],
        &b"greetings/hello\x80world"[..],
    ];
    for arg in args {
        let p = do_process_os(arg).unwrap();
        assert_eq!(p.preopens.len(), 1);
        assert_eq!(p.arg, p.preopens[0].token);
        assert_eq!(p.preopens[0].original, arg);
    }
}

#[test]
fn preopener_test_passthrough() {
    let args = [
        "",
        "foo",
        "--input=foo",
        "foo%",
        "0123:4567:89ab:cdef:0246:8ace:1357:9bdf",
        "::1",
        "username@hostname:",
        "username@hostname:foo",
        "hostname:",
        "hostname:foo",
        "hostname:80",
        "hostname:/tmp",
        "username@hostname:/tmp",
        "https://example.com",
        "https://example.com:80",
        "https://example.com/",
        "https://example.com:80/",
        "data:,Hello%2C%20World!",
        "data:text/plain;base64,SGVsbG8sIFdvcmxkIQ==",
        "--input=foo:bar",
        "--input=foo:/bar",
        "--input=/foo:bar",
        ":",
        "::",
        "[:alnum:]",
    ];
    for arg in args {
        assert_eq!(do_process(arg), Ok(Process::new(arg, &[])));
        assert_eq!(
            do_process(&("%verbatim:".to_owned() + arg)),
            Ok(Process::new(arg, &[]))
        );
    }
}

#[test]
fn preopener_test_verbatim() {
    let args = [
        "/some/arg",
        "/",
        "colon/separated:list/of:args/here",
        "/:/",
        "--input=/some/arg",
        "--input=/",
    ];
    for arg in args {
        assert_eq!(
            do_process(&("%verbatim:".to_owned() + arg)),
            Ok(Process::new(arg, &[]))
        );

        let result = do_process(arg).unwrap();
        assert_ne!(arg, result.arg);
        assert!(!result.preopens.is_empty());
    }
}

#[test]
fn preopener_test_paths() {
    let args = [
        "/",
        "./",
        "//",
        ".//",
        ".foo",
        "foo/bar",
        "foo/bar/",
        "foo/bar/",
        "foo/bar/.",
        "/foo",
        "/foo/bar",
        "/foo/bar/",
        "/foo/bar/.",
        "//foo",
        "//foo/bar",
        "//foo/bar/",
        "//foo/bar/.",
    ];
    for arg in args {
        let p = do_process(arg).unwrap();
        assert_eq!(p.preopens.len(), 1);
        assert_eq!(p.arg, p.preopens[0].token);
        assert_eq!(p.preopens[0].original, arg.as_bytes());
        assert_eq!(
            do_process(&("%verbatim:".to_owned() + arg)),
            Ok(Process::new(arg, &[]))
        );
    }
}

#[test]
fn preopener_test_colon_separated() {
    let p = do_process("/:/").unwrap();
    assert_eq!(p.preopens.len(), 2);
    assert_eq!(
        p.arg,
        format!("{}:{}", p.preopens[0].token, p.preopens[1].token)
    );
    assert_eq!(p.preopens[0].original, "/".as_bytes());
    assert_eq!(p.preopens[1].original, "/".as_bytes());
    assert_eq!(
        do_process(&("%verbatim:/:/".to_owned())),
        Ok(Process::new("/:/", &[]))
    );

    let p = do_process("./foo:./bar").unwrap();
    assert_eq!(p.preopens.len(), 2);
    assert_eq!(
        p.arg,
        format!("{}:{}", p.preopens[0].token, p.preopens[1].token)
    );
    assert_eq!(p.preopens[0].original, "./foo".as_bytes());
    assert_eq!(p.preopens[1].original, "./bar".as_bytes());
    assert_eq!(
        do_process(&("%verbatim:./foo:./bar".to_owned())),
        Ok(Process::new("./foo:./bar", &[]))
    );
}

#[test]
fn test_more_colon_separated() {
    let name = "name:with:colons";
    assert_eq!(do_process(name), Ok(Process::new("name:with:colons", &[])));

    let name = "/name:%with/:col/ons";
    assert_eq!(
        do_process(name),
        Ok(Process::new("/name:%with/:col/ons", &[]))
    );

    let name = "/name:with/:col/ons";
    let p = do_process(name).unwrap();
    assert_eq!(
        p.arg,
        format!(
            "{}:{}:{}",
            p.preopens[0].token, p.preopens[1].token, p.preopens[2].token
        )
    );
}

#[test]
fn preopener_test_equals() {
    let p = do_process("--input=/foo").unwrap();
    assert!(p.arg.starts_with("--input="));
    assert!(!p.arg.ends_with("/foo"));
    assert_eq!(p.preopens.len(), 1);
    assert_eq!(p.arg, format!("--input={}", p.preopens[0].token));
    assert_eq!(p.preopens[0].original, "/foo".as_bytes());
    assert_eq!(
        do_process("%verbatim:--input=/foo"),
        Ok(Process::new("--input=/foo", &[]))
    );
}

// The host files themselves are the host's business: these three follow the
// names through the mediator and check which host path each open is sent to.

#[test]
fn copy() {
    let real_input_name = "/tmp/preopener-copy/input.txt";
    let real_output_name = "/tmp/preopener-copy/output.txt";

    let args = vec![
        real_input_name.as_bytes().to_vec(),
        real_output_name.as_bytes().to_vec(),
    ];
    let mut preopener = Preopener::new(MagicLevel::Auto);
    let args = preopener.process_args_os(args).unwrap();

    let input_name = &args[0];
    let output_name = &args[1];

    // The real names are hidden.
    assert!(!input_name.contains(real_input_name));
    assert!(!output_name.contains(real_output_name));

    let input = preopener.open(input_name).unwrap();
    let output = preopener.create(output_name).unwrap();

    // Each open is sent to the real name.
    assert_eq!(input, real_input_name.as_bytes());
    assert_eq!(output, real_output_name.as_bytes());

    // The bindings hold the names without the extension, for any access.
    let bindings = preopener.as_slice();
    assert_eq!(bindings.len(), 2);
    assert_eq!(bindings[0].original, b"/tmp/preopener-copy/input");
    assert_eq!(bindings[1].original, b"/tmp/preopener-copy/output");
    assert_eq!(bindings[0].access, Access::Any);
    assert_eq!(bindings[1].access, Access::Any);
    assert_eq!(*input_name, format!("{}.txt", bindings[0].token));
    assert_eq!(*output_name, format!("{}.txt", bindings[1].token));
}

// Like `copy` but doesn't use magic.
#[test]
fn copy_fail_no_magic() {
    let real_input_name = "/tmp/preopener-copy/input.txt";
    let real_output_name = "/tmp/preopener-copy/output.txt";

    let args = vec![
        real_input_name.as_bytes().to_vec(),
        real_output_name.as_bytes().to_vec(),
    ];
    let mut preopener = Preopener::new(MagicLevel::NoMagic);
    let args = preopener.process_args_os(args).unwrap();

    let input_name = &args[0];
    let output_name = &args[1];

    // The real names are not hidden.
    assert!(input_name.contains(real_input_name));
    assert!(output_name.contains(real_output_name));

    // Everything fails.
    assert_eq!(
        preopener.open(input_name).unwrap_err(),
        OpenError::NotAPreopen
    );
    assert_eq!(
        preopener.create(output_name).unwrap_err(),
        OpenError::NotAPreopen
    );
}

// Like `copy` but doesn't use enough magic.
#[test]
fn copy_fail_no_writeability() {
    let real_input_name = "/tmp/preopener-copy/input.txt";
    let real_output_name = "/tmp/preopener-copy/output.txt";

    let args = vec![
        real_input_name.as_bytes().to_vec(),
        real_output_name.as_bytes().to_vec(),
    ];
    let mut preopener = Preopener::new(MagicLevel::Readonly);
    let args = preopener.process_args_os(args).unwrap();

    let input_name = &args[0];
    let output_name = &args[1];

    // The real names are hidden.
    assert!(!input_name.contains(real_input_name));
    assert!(!output_name.contains(real_output_name));

    // In readonly mode we can open the input but opening the output fails.
    let input = preopener.open(input_name).unwrap();
    assert_eq!(input, real_input_name.as_bytes());
    assert_eq!(
        preopener.create(output_name).unwrap_err(),
        OpenError::AccessDenied {
            original: b"/tmp/preopener-copy/output".to_vec(),
            permitted: Access::Read
        }
    );
    assert_eq!(preopener.as_slice().len(), 2);
    assert_eq!(preopener.as_slice()[0].access, Access::Read);
    assert_eq!(preopener.as_slice()[1].access, Access::Read);
}
