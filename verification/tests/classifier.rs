use preopener::classifier::{is_likely_path, is_suspicious_shell_metacharacter, split_extension};
use std::path::Path;

// What `is_likely_path` comes to when the components and the extension are
// taken from `std::path` on a POSIX-like host.
fn likely_by_std_path(arg: &str) -> bool {
    if arg.len() > 4096 {
        return false;
    }
    let c = match arg.chars().next() {
        Some(c) => c,
        None => return false,
    };
    if c == '-'
        || c.is_whitespace()
        || matches!(c, '~' | '!' | '%')
        || is_suspicious_shell_metacharacter(c)
    {
        return false;
    }
    for component in Path::new(arg).components() {
        let component = component.as_os_str().to_str().unwrap();
        if component == "." || component == ".." {
            continue;
        }
        let first = component.chars().next().unwrap();
        let last = component.chars().rev().next().unwrap();
        if first.is_whitespace() || last.is_whitespace() || last == '.' {
            return false;
        }
    }
    if arg.chars().any(char::is_control) {
        return false;
    }
    if arg.contains('/') {
        return true;
    }
    if let Some(ext) = Path::new(arg).extension().and_then(|ext| ext.to_str()) {
        if !ext.is_empty() && ext.len() <= 16 && ext.chars().all(|c| c.is_ascii_alphanumeric()) {
            return true;
        }
    }
    if let Some(suffix) = arg.strip_prefix('.') {
        if suffix
            .chars()
            .all(|c| c.is_ascii_graphic() && !is_suspicious_shell_metacharacter(c))
        {
            return true;
        }
    }
    false
}

#[test]
fn likely_path_agrees_with_std_path() {
    let alphabet = ['/', '.', 'a', 'Z', '7', ' ', '-', '*', '\t', '~', '\u{e9}', ':', '='];
    // Every string of up to five characters over the alphabet.
    let mut strings = vec![String::new()];
    let mut from = 0;
    for _ in 0..5 {
        let upto = strings.len();
        for i in from..upto {
            for c in alphabet {
                let mut s = strings[i].clone();
                s.push(c);
                strings.push(s);
            }
        }
        from = upto;
    }
    assert_eq!(strings.len(), 1 + 13 + 169 + 2197 + 28561 + 371293);
    for s in &strings {
        assert_eq!(is_likely_path(s), likely_by_std_path(s), "{:?}", s);
    }
    // Extensions around the limit of sixteen characters, and long names.
    for n in 0..40 {
        for stem in ["a", ".a", "a.b", "", ".", "a b"] {
            for tail in ["", ".", "/", " "] {
                let s = format!("{}.{}{}", stem, "x".repeat(n), tail);
                assert_eq!(is_likely_path(&s), likely_by_std_path(&s), "{:?}", s);
            }
        }
    }
    for n in [4094, 4095, 4096, 4097] {
        for unit in ["a", "/", "\u{e9}", "a/"] {
            let s = unit.repeat(n / unit.len() + 1);
            assert_eq!(is_likely_path(&s), likely_by_std_path(&s));
            let s = format!("/{}", unit.repeat(n / unit.len()));
            assert_eq!(is_likely_path(&s), likely_by_std_path(&s));
        }
    }
}

#[test]
fn test_is_likely_path() {
    assert!(is_likely_path("/"));
    assert!(is_likely_path("//"));
    assert!(is_likely_path("."));
    assert!(is_likely_path(".."));
    assert!(is_likely_path("/."));
    assert!(is_likely_path("/.."));
    assert!(is_likely_path("./"));
    assert!(is_likely_path("../"));
    assert!(is_likely_path("hello.mp3"));
    assert!(is_likely_path("world.JPEG"));
    assert!(is_likely_path("goodnight.d"));
    assert!(is_likely_path("moon.delightful"));
    assert!(is_likely_path(".gitignore"));
    assert!(is_likely_path(".this-and_that"));
    assert!(is_likely_path("/foo"));
    assert!(is_likely_path("/foo/bar"));
    assert!(is_likely_path("/foo.baz/bar.baz"));
    assert!(is_likely_path("foo/bar"));
    assert!(is_likely_path("foo.baz/bar.baz"));
    assert!(is_likely_path("foo/"));
    assert!(is_likely_path("foo/bar/"));
    assert!(is_likely_path("foo/bar/."));
    assert!(is_likely_path("fo o/b ar"));
    assert!(is_likely_path("f oo/ba r"));
    assert!(is_likely_path(&"A/".repeat(2048)));

    assert!(!is_likely_path(""));
    assert!(!is_likely_path(".this and that"));
    assert!(!is_likely_path("/hello\nworld.txt"));
    assert!(!is_likely_path("/hello\tworld.txt"));
    assert!(!is_likely_path("/hello\0world.txt"));
    assert!(!is_likely_path(".this and that"));
    assert!(!is_likely_path("<special/time.txt"));
    assert!(!is_likely_path("!/what.txt"));
    assert!(!is_likely_path("*/*/foo.md"));
    assert!(!is_likely_path("foo"));
    assert!(!is_likely_path(" /foo"));
    assert!(!is_likely_path("foo /bar"));
    assert!(!is_likely_path("foo/ bar"));
    assert!(!is_likely_path("foo/bar."));
    assert!(!is_likely_path("foo./bar"));
    assert!(!is_likely_path("moon.excessivelylongextension"));
    assert!(!is_likely_path(&"A/".repeat(2049)));

    assert_eq!(is_likely_path("foo\\bar"), false);
    assert_eq!(is_likely_path("\\foo\\bar"), false);
    assert_eq!(is_likely_path("/A"), true);
    assert_eq!(is_likely_path("CON"), false);
    assert_eq!(is_likely_path("NUL"), false);
    assert_eq!(is_likely_path(r"\\?\pictures\kittens"), false);
    assert_eq!(is_likely_path(r"\\?\UNC\server\share"), false);
    assert_eq!(is_likely_path(r"\\?\c:\"), false);
    assert_eq!(is_likely_path(r"\\.\BrainInterface"), false);
    assert_eq!(is_likely_path(r"\\server\share"), false);
    assert_eq!(is_likely_path(r"C:\Users\Rust\Pictures\Ferris"), false);
}

#[test]
fn preopener_test_split_extension() {
    assert_eq!(split_extension("/foo/bar"), ("/foo/bar", ""));
    assert_eq!(split_extension("/foo/bar.txt"), ("/foo/bar", ".txt"));
    assert_eq!(
        split_extension("/foo.qux/bar.txt"),
        ("/foo.qux/bar", ".txt")
    );
    assert_eq!(split_extension("/foo/.bar"), ("/foo/.bar", ""));
    assert_eq!(split_extension("/foo/.bar.txt"), ("/foo/.bar", ".txt"));
    assert_eq!(
        split_extension("/foo.qux/.bar.txt"),
        ("/foo.qux/.bar", ".txt")
    );
    assert_eq!(
        split_extension("/foo/.bar.txt.gz"),
        ("/foo/.bar", ".txt.gz")
    );
    assert_eq!(
        split_extension("/foo.qux/.bar.txt.gz"),
        ("/foo.qux/.bar", ".txt.gz")
    );
    assert_eq!(
        split_extension("/foo.qux/bar.txt"),
        ("/foo.qux/bar", ".txt")
    );
    assert_eq!(
        split_extension("/foo.qux/bar.txt.gz"),
        ("/foo.qux/bar", ".txt.gz")
    );
    assert_eq!(
        split_extension("/foo.qux/bar..txt.gz"),
        ("/foo.qux/bar.", ".txt.gz")
    );
    assert_eq!(split_extension("/foo.qux/bar.*"), ("/foo.qux/bar.*", ""));
    assert_eq!(
        split_extension("/foo.qux/bar.*.txt"),
        ("/foo.qux/bar.*", ".txt")
    );
    assert_eq!(
        split_extension("/foo.qux/bar.*.txt.gz"),
        ("/foo.qux/bar.*", ".txt.gz")
    );
    assert_eq!(
        split_extension("/foo.qux/bar.\u{fffd}"),
        ("/foo.qux/bar.\u{fffd}", "")
    );
    assert_eq!(
        split_extension("/foo.qux/bar.\u{fffd}.txt"),
        ("/foo.qux/bar.\u{fffd}", ".txt")
    );
    assert_eq!(
        split_extension("/foo.qux/bar.\u{fffd}.txt.gz"),
        ("/foo.qux/bar.\u{fffd}", ".txt.gz")
    );
    assert_eq!(
        split_extension("/foo.qux/bar.\u{feff}"),
        ("/foo.qux/bar.\u{feff}", "")
    );
    assert_eq!(
        split_extension("/foo.qux/bar.\u{feff}.txt"),
        ("/foo.qux/bar.\u{feff}", ".txt")
    );
    assert_eq!(
        split_extension("/foo.qux/bar.\u{feff}.txt.gz"),
        ("/foo.qux/bar.\u{feff}", ".txt.gz")
    );
    assert_eq!(
        split_extension("/foo.qux/bar.\u{fffa}"),
        ("/foo.qux/bar.\u{fffa}", "")
    );
    assert_eq!(
        split_extension("/foo.qux/bar.\u{fffa}.txt"),
        ("/foo.qux/bar.\u{fffa}", ".txt")
    );
    assert_eq!(
        split_extension("/foo.qux/bar.\u{fffa}.txt.gz"),
        ("/foo.qux/bar.\u{fffa}", ".txt.gz")
    );
    assert_eq!(
        split_extension("/foo.qux/bar.\u{fffb}"),
        ("/foo.qux/bar.\u{fffb}", "")
    );
    assert_eq!(
        split_extension("/foo.qux/bar.\u{fffb}.txt"),
        ("/foo.qux/bar.\u{fffb}", ".txt")
    );
    assert_eq!(
        split_extension("/foo.qux/bar.\u{fffb}.txt.gz"),
        ("/foo.qux/bar.\u{fffb}", ".txt.gz")
    );
    assert_eq!(
        split_extension("/foo.qux/bar.\u{fffc}"),
        ("/foo.qux/bar.\u{fffc}", "")
    );
    assert_eq!(
        split_extension("/foo.qux/bar.\u{fffc}.txt"),
        ("/foo.qux/bar.\u{fffc}", ".txt")
    );
    assert_eq!(
        split_extension("/foo.qux/bar.\u{fffc}.txt.gz"),
        ("/foo.qux/bar.\u{fffc}", ".txt.gz")
    );
    assert_eq!(split_extension("/foo.qux/bar. "), ("/foo.qux/bar. ", ""));
    assert_eq!(
        split_extension("/foo.qux/bar. .txt"),
        ("/foo.qux/bar. ", ".txt")
    );
    assert_eq!(
        split_extension("/foo.qux/bar. .txt.gz"),
        ("/foo.qux/bar. ", ".txt.gz")
    );
    assert_eq!(
        split_extension("/foo.qux/bar.\u{7}"),
        ("/foo.qux/bar.\u{7}", "")
    );
    assert_eq!(
        split_extension("/foo.qux/bar.\u{7}.txt"),
        ("/foo.qux/bar.\u{7}", ".txt")
    );
    assert_eq!(
        split_extension("/foo.qux/bar.\u{7}.txt.gz"),
        ("/foo.qux/bar.\u{7}", ".txt.gz")
    );
    assert_eq!(
        split_extension("/foo.qux/bar.\u{7}. .*..txt.gz"),
        ("/foo.qux/bar.\u{7}. .*.", ".txt.gz")
    );
    assert_eq!(split_extension("."), (".", ""));
    assert_eq!(split_extension(".txt"), (".txt", ""));
    assert_eq!(split_extension("a.txt"), ("a", ".txt"));
    assert_eq!(split_extension("a..txt"), ("a.", ".txt"));
}

#[test]
fn env_test_split_extension() {
    assert_eq!(split_extension("/foo/bar"), ("/foo/bar", ""));
    assert_eq!(split_extension("/foo/bar.txt"), ("/foo/bar", ".txt"));
    assert_eq!(
        split_extension("/foo.qux/bar.txt"),
        ("/foo.qux/bar", ".txt")
    );
    assert_eq!(split_extension("/foo/.bar"), ("/foo/.bar", ""));
    assert_eq!(split_extension("/foo/.bar.txt"), ("/foo/.bar", ".txt"));
    assert_eq!(
        split_extension("/foo.qux/.bar.txt"),
        ("/foo.qux/.bar", ".txt")
    );
    assert_eq!(
        split_extension("/foo/.bar.txt.gz"),
        ("/foo/.bar", ".txt.gz")
    );
    assert_eq!(
        split_extension("/foo.qux/.bar.txt.gz"),
        ("/foo.qux/.bar", ".txt.gz")
    );
    assert_eq!(
        split_extension("/foo.qux/bar.txt"),
        ("/foo.qux/bar", ".txt")
    );
    assert_eq!(
        split_extension("/foo.qux/bar.txt.gz"),
        ("/foo.qux/bar", ".txt.gz")
    );
    assert_eq!(
        split_extension("/foo.qux/bar..txt.gz"),
        ("/foo.qux/bar.", ".txt.gz")
    );
    assert_eq!(split_extension("/foo.qux/bar.*"), ("/foo.qux/bar.*", ""));
    assert_eq!(
        split_extension("/foo.qux/bar.*.txt"),
        ("/foo.qux/bar.*", ".txt")
    );
    assert_eq!(
        split_extension("/foo.qux/bar.*.txt.gz"),
        ("/foo.qux/bar.*", ".txt.gz")
    );
    assert_eq!(
        split_extension("/foo.qux/bar.\u{fffd}"),
        ("/foo.qux/bar.\u{fffd}", "")
    );
    assert_eq!(
        split_extension("/foo.qux/bar.\u{fffd}.txt"),
        ("/foo.qux/bar.\u{fffd}", ".txt")
    );
    assert_eq!(
        split_extension("/foo.qux/bar.\u{fffd}.txt.gz"),
        ("/foo.qux/bar.\u{fffd}", ".txt.gz")
    );
    assert_eq!(
        split_extension("/foo.qux/bar.\u{feff}"),
        ("/foo.qux/bar.\u{feff}", "")
    );
    assert_eq!(
        split_extension("/foo.qux/bar.\u{feff}.txt"),
        ("/foo.qux/bar.\u{feff}", ".txt")
    );
    assert_eq!(
        split_extension("/foo.qux/bar.\u{feff}.txt.gz"),
        ("/foo.qux/bar.\u{feff}", ".txt.gz")
    );
    assert_eq!(
        split_extension("/foo.qux/bar.\u{fffa}"),
        ("/foo.qux/bar.\u{fffa}", "")
    );
    assert_eq!(
        split_extension("/foo.qux/bar.\u{fffa}.txt"),
        ("/foo.qux/bar.\u{fffa}", ".txt")
    );
    assert_eq!(
        split_extension("/foo.qux/bar.\u{fffa}.txt.gz"),
        ("/foo.qux/bar.\u{fffa}", ".txt.gz")
    );
    assert_eq!(
        split_extension("/foo.qux/bar.\u{fffb}"),
        ("/foo.qux/bar.\u{fffb}", "")
    );
    assert_eq!(
        split_extension("/foo.qux/bar.\u{fffb}.txt"),
        ("/foo.qux/bar.\u{fffb}", ".txt")
    );
    assert_eq!(
        split_extension("/foo.qux/bar.\u{fffb}.txt.gz"),
        ("/foo.qux/bar.\u{fffb}", ".txt.gz")
    );
    assert_eq!(
        split_extension("/foo.qux/bar.\u{fffc}"),
        ("/foo.qux/bar.\u{fffc}", "")
    );
    assert_eq!(
        split_extension("/foo.qux/bar.\u{fffc}.txt"),
        ("/foo.qux/bar.\u{fffc}", ".txt")
    );
    assert_eq!(
        split_extension("/foo.qux/bar.\u{fffc}.txt.gz"),
        ("/foo.qux/bar.\u{fffc}", ".txt.gz")
    );
    assert_eq!(split_extension("/foo.qux/bar. "), ("/foo.qux/bar. ", ""));
    assert_eq!(
        split_extension("/foo.qux/bar. .txt"),
        ("/foo.qux/bar. ", ".txt")
    );
    assert_eq!(
        split_extension("/foo.qux/bar. .txt.gz"),
        ("/foo.qux/bar. ", ".txt.gz")
    );
    assert_eq!(
        split_extension("/foo.qux/bar.\u{7}"),
        ("/foo.qux/bar.\u{7}", "")
    );
    assert_eq!(
        split_extension("/foo.qux/bar.\u{7}.txt"),
        ("/foo.qux/bar.\u{7}", ".txt")
    );
    assert_eq!(
        split_extension("/foo.qux/bar.\u{7}.txt.gz"),
        ("/foo.qux/bar.\u{7}", ".txt.gz")
    );
    assert_eq!(
        split_extension("/foo.qux/bar.\u{7}. .*..txt.gz"),
        ("/foo.qux/bar.\u{7}. .*.", ".txt.gz")
    );
    assert_eq!(split_extension("."), (".", ""));
    assert_eq!(split_extension(".txt"), (".txt", ""));
    assert_eq!(split_extension("a.txt"), ("a", ".txt"));
    assert_eq!(split_extension("a..txt"), ("a.", ".txt"));
}
