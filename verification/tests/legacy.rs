use preopener::env::{is_more_likely_path_than_list, legacy_probe, Stat};
use preopener::table::Preopen;
use preopener::{Env, Error};

#[derive(Eq, PartialEq, Debug)]
struct Process {
    arg: String,
    preopens: Vec<Preopen>,
}

impl Process {
    fn new(arg: &str, preopens: &[Preopen]) -> Self {
        Self {
            arg: arg.to_owned(),
            preopens: preopens.to_vec(),
        }
    }
}

// Answers every lookup that `arg` takes the way a host does on which none
// of the names exists.
fn nothing_found(arg: &str) -> Vec<Stat> {
    let mut answers = Vec::new();
    while legacy_probe(arg, &answers).is_some() {
        answers.push(Stat::NotFound);
    }
    answers
}

fn do_process(arg: &str) -> Result<Process, Error> {
    let mut env = Env::new();
    let answers = vec![nothing_found(arg)];
    let arg = env.process_args(vec![arg.to_owned()], &answers)?;
    Ok(Process {
        arg: arg[0].clone(),
        preopens: env.preopens().to_vec(),
    })
}

#[test]
fn test_is_more_likely_path_than_list() {
    let arg = "/does/not/exist:at/all";
    assert_eq!(
        legacy_probe(arg, &[]),
        Some("/does/not/exist:at".to_owned())
    );
    assert!(!is_more_likely_path_than_list(Stat::NotFound));
}

#[test]
fn test_colon_path_exists() {
    let name = "/tmp/dir/name:with:colons";
    assert_eq!(legacy_probe(name, &[]), Some(name.to_owned()));
    assert!(is_more_likely_path_than_list(Stat::Found));
    assert_eq!(legacy_probe(name, &[Stat::Found]), None);

    let name = "/tmp/dir/name:with:colons/and:more/and/more";
    assert_eq!(
        legacy_probe(name, &[]),
        Some("/tmp/dir/name:with:colons".to_owned())
    );
    assert!(is_more_likely_path_than_list(Stat::Found));
    assert_eq!(legacy_probe(name, &[Stat::Found]), None);
}

#[test]
fn env_test_error() {
    let args = ["?", "??", "???", "?/foo"];
    for arg in args {
        assert!(do_process(arg).is_err());
    }
}

#[test]
fn env_test_passthrough() {
    let args = [
        "",
        "foo",
        "--input=foo",
        ".foo",
        "foo?",
        "0123:4567:89ab:cdef:0246:8ace:1357:9bdf",
        "::1",
        "username@hostname:",
        "username@hostname:foo",
        "hostname:",
        "hostname:foo",
        "hostname:80",
        "hostname:/tmp",
        "username@hostname:/tmp",
        "https://example.com",
        "https://example.com:80",
        "https://example.com/",
        "https://example.com:80/",
        "data:,Hello%2C%20World!",
        "data:text/plain;base64,SGVsbG8sIFdvcmxkIQ==",
        "--input=foo:bar",
        "--input=foo:/bar",
        "--input=/foo:bar",
        ":",
        "::",
        "[:alnum:]",
    ];
    for arg in args {
        assert_eq!(do_process(arg), Ok(Process::new(arg, &[])));
        assert_eq!(
            do_process(&("?=".to_owned() + arg)),
            Ok(Process::new(arg, &[]))
        );
    }
}

#[test]
fn env_test_verbatim() {
    let args = [
        "/some/arg",
        "/",
        "colon/separated:list/of:args/here",
        "/:/",
        "--input=/some/arg",
        "--input=/",
    ];
    for arg in args {
        assert_eq!(
            do_process(&("?=".to_owned() + arg)),
            Ok(Process::new(arg, &[]))
        );

        let result = do_process(arg).unwrap();
        assert_ne!(arg, result.arg);
        assert!(!result.preopens.is_empty());
    }
}

#[test]
fn env_test_paths() {
    let args = [
        "/",
        "./",
        "//",
        ".//",
        "foo/bar",
        "foo/bar/",
        "foo/bar/",
        "foo/bar/.",
        "/foo",
        "/foo/bar",
        "/foo/bar/",
        "/foo/bar/.",
        "//foo",
        "//foo/bar",
        "//foo/bar/",
        "//foo/bar/.",
    ];
    for arg in args {
        let p = do_process(arg).unwrap();
        assert_eq!(p.preopens.len(), 1);
        assert_eq!(p.arg, p.preopens[0].token);
        assert_eq!(p.preopens[0].original, arg.as_bytes());
        assert_eq!(
            do_process(&("?=".to_owned() + arg)),
            Ok(Process::new(arg, &[]))
        );
    }
}

#[test]
fn env_test_colon_separated() {
    let p = do_process("/:/").unwrap();
    assert_eq!(p.preopens.len(), 2);
    assert_eq!(
        p.arg,
        format!("{}:{}", p.preopens[0].token, p.preopens[1].token)
    );
    assert_eq!(p.preopens[0].original, "/".as_bytes());
    assert_eq!(p.preopens[1].original, "/".as_bytes());
    assert_eq!(
        do_process(&("?=/:/".to_owned())),
        Ok(Process::new("/:/", &[]))
    );

    let p = do_process("./foo:./bar").unwrap();
    assert_eq!(p.preopens.len(), 2);
    assert_eq!(
        p.arg,
        format!("{}:{}", p.preopens[0].token, p.preopens[1].token)
    );
    assert_eq!(p.preopens[0].original, "./foo".as_bytes());
    assert_eq!(p.preopens[1].original, "./bar".as_bytes());
    assert_eq!(
        do_process(&("?=./foo:./bar".to_owned())),
        Ok(Process::new("./foo:./bar", &[]))
    );
}

#[test]
fn env_test_equals() {
    let p = do_process("--input=/foo").unwrap();
    assert!(p.arg.starts_with("--input="));
    assert!(!p.arg.ends_with("/foo"));
    assert_eq!(p.preopens.len(), 1);
    assert_eq!(p.arg, format!("--input={}", p.preopens[0].token));
    assert_eq!(p.preopens[0].original, "/foo".as_bytes());
    assert_eq!(
        do_process("?=--input=/foo"),
        Ok(Process::new("--input=/foo", &[]))
    );
}

#[test]
fn legacy_media_type_takes_a_lookup() {
    // A bare name with a known media type is a path only if it is there.
    assert_eq!(legacy_probe("notes.txt", &[]), Some("notes.txt".to_owned()));
    assert_eq!(legacy_probe("notes.txt", &[Stat::NotFound]), None);
    assert_eq!(legacy_probe("notes", &[]), None);
    assert_eq!(legacy_probe("notes.no-such-extension", &[]), None);

    let mut env = Env::new();
    let out = env.process("notes.txt".to_owned(), &[Stat::Found]).unwrap();
    assert_eq!(env.preopens().len(), 1);
    assert_eq!(out, format!("{}.txt", env.preopens()[0].token));
    assert_eq!(env.preopens()[0].original, "notes".as_bytes());

    let mut env = Env::new();
    let out = env
        .process("notes.txt".to_owned(), &[Stat::NotFound])
        .unwrap();
    assert_eq!(out, "notes.txt");
    assert!(env.preopens().is_empty());

    // A lookup that fails for another reason counts as present.
    let mut env = Env::new();
    let out = env.process("notes.txt".to_owned(), &[Stat::Failed]).unwrap();
    assert_ne!(out, "notes.txt");
    assert_eq!(env.preopens().len(), 1);

    // A missing answer counts as not found.
    let mut env = Env::new();
    let out = env.process("notes.txt".to_owned(), &[]).unwrap();
    assert_eq!(out, "notes.txt");
    assert!(env.preopens().is_empty());
}

#[test]
fn legacy_lookups_come_in_order() {
    // The colon probe comes first, then each piece without a slash.
    let arg = "a.txt:b/c:d.png";
    assert_eq!(legacy_probe(arg, &[]), Some("a.txt:b".to_owned()));
    assert_eq!(
        legacy_probe(arg, &[Stat::NotFound]),
        Some("a.txt".to_owned())
    );
    assert_eq!(
        legacy_probe(arg, &[Stat::NotFound, Stat::Found]),
        Some("d.png".to_owned())
    );
    assert_eq!(
        legacy_probe(arg, &[Stat::NotFound, Stat::Found, Stat::Found]),
        None
    );
    // The first piece that is no path settles it.
    assert_eq!(legacy_probe(arg, &[Stat::NotFound, Stat::NotFound]), None);

    let mut env = Env::new();
    let out = env
        .process(
            arg.to_owned(),
            &[Stat::NotFound, Stat::Found, Stat::Found],
        )
        .unwrap();
    let p = env.preopens();
    assert_eq!(p.len(), 3);
    assert_eq!(
        out,
        format!("{}.txt:{}:{}.png", p[0].token, p[1].token, p[2].token)
    );
    assert_eq!(p[0].original, "a".as_bytes());
    assert_eq!(p[1].original, "b/c".as_bytes());
    assert_eq!(p[2].original, "d".as_bytes());

    // A flag with a value: the value is looked up first, then the whole.
    let arg = "--out=x.txt";
    assert_eq!(legacy_probe(arg, &[]), Some("x.txt".to_owned()));
    assert_eq!(
        legacy_probe(arg, &[Stat::NotFound]),
        Some("--out=x.txt".to_owned())
    );
    assert_eq!(legacy_probe(arg, &[Stat::Found]), None);
    let mut env = Env::new();
    let out = env.process(arg.to_owned(), &[Stat::Found]).unwrap();
    assert_eq!(out, format!("--out={}.txt", env.preopens()[0].token));
    let mut env = Env::new();
    let out = env
        .process(arg.to_owned(), &[Stat::NotFound, Stat::Found])
        .unwrap();
    assert_eq!(out, format!("{}.txt", env.preopens()[0].token));
    assert_eq!(env.preopens()[0].original, "--out=x".as_bytes());
}

#[test]
fn legacy_tokens_are_bare_uuids() {
    let mut env = Env::new();
    let out = env.process("/foo".to_owned(), &[]).unwrap();
    assert_eq!(out.len(), 36);
    assert!(!out.starts_with("wasi-preopen."));
    assert_eq!(env.open(&out).unwrap(), "/foo".as_bytes());
    assert_eq!(
        env.open(&(out.clone() + "/sub")).unwrap(),
        "/foo/sub".as_bytes()
    );
    assert!(env.open("/foo").is_err());

    let mut w = env.stdout();
    let line = format!("hello {} world\n", out);
    let (taken, sent) = w.write(line.as_bytes());
    assert_eq!(taken, line.len());
    assert_eq!(sent, b"hello /foo world\n");
}
