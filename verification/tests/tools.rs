use web_server::address::Address;
use web_server::cached::Thunk;
use web_server::complex::Complex;
use web_server::either::Either;
use web_server::glossary::{is_whitespace, translate_words};
use web_server::interleaver::Interleaver;
use web_server::server::{
    candidate_paths, content_key, directory_key, extension, first_match, full_response, join_lines, ok_response, parse_path,
    trim_end_slashes,
};
use web_server::usado_em::UsadoEm;

fn strings(v: &[&str]) -> Vec<String> {
    v.iter().map(|s| s.to_string()).collect()
}

#[test]
fn address_text() {
    let a = Address { ip: (127, 0, 0, 1), port: 7878 };
    assert_eq!(a.to_string(), "127.0.0.1:7878");
    let b = Address { ip: (255, 10, 0, 99), port: 0 };
    assert_eq!(b.to_string(), "255.10.0.99:0");
}

#[test]
fn either_accessors() {
    let l: Either<i32, &str> = Either::Left(3);
    let r: Either<i32, &str> = Either::Right("x");
    assert!(l.is_left());
    assert!(!r.is_left());
    assert_eq!(l.l_val_ref(), Some(&3));
    assert_eq!(l.r_val_ref(), None);
    assert_eq!(r.r_val_ref(), Some(&"x"));
    assert!(matches!(r.as_ref(), Either::Right(&"x")));
    assert!(matches!(l.as_ref(), Either::Left(&3)));
    assert_eq!(l.l_val(), Some(3));
    assert_eq!(r.r_val(), Some("x"));
    let l2: Either<i32, &str> = Either::Left(4);
    assert_eq!(l2.r_val(), None);
}

#[test]
fn thunk_runs_getter_once() {
    let mut t = Thunk::new_getter(|| 40 + 2);
    assert!(matches!(t, Thunk::Promise(Some(_))));
    t.load();
    assert!(matches!(t, Thunk::Value(42)));
    t.load();
    assert_eq!(*t.val_ref(), 42);
    assert_eq!(t.unwrap(), 42);
}

#[test]
fn thunk_unwrap_computes() {
    let t = Thunk::new_getter(|| "content".to_string());
    assert_eq!(t.unwrap(), "content");
}

#[test]
fn used_in_applies_function() {
    assert_eq!(3.used_in(|x| x + 1), 4);
    assert_eq!("ab".to_string().used_in_once(|s| s.len()), 2);
    let mut total = 0;
    let mut f = |x: i32| {
        total += x;
        x * 2
    };
    assert_eq!(5.used_in_mut(&mut f), 10);
    assert_eq!(total, 5);
}

#[test]
fn complex_arithmetic() {
    let a = Complex { re: 1i64, im: 2 };
    let b = Complex { re: 3i64, im: 4 };
    let s = a + b;
    assert_eq!((s.re, s.im), (4, 6));
    let d = a - b;
    assert_eq!((d.re, d.im), (-2, -2));
    let p = a * b;
    assert_eq!((p.re, p.im), (-5, 10));
}

#[test]
fn interleaver_takes_turns() {
    let mut it = Interleaver::from(vec![vec![1, 2, 3].into_iter(), vec![10, 20].into_iter()]);
    let mut got = Vec::new();
    for _ in 0..8 {
        got.push(it.next_item());
    }
    assert_eq!(
        got,
        vec![Some(1), Some(10), Some(2), Some(20), Some(3), None, None, None]
    );
    let mut empty: Interleaver<std::vec::IntoIter<i32>> = Interleaver::new();
    assert_eq!(empty.next_item(), None);
    let mut d: Interleaver<std::vec::IntoIter<i32>> = Default::default();
    assert_eq!(d.next_item(), None);
}

#[test]
fn candidate_paths_for_directory_page_and_bare_name() {
    assert_eq!(parse_path("/"), strings(&["/index.html", "/404.html"]));
    assert_eq!(parse_path("/docs/"), strings(&["/docs/index.html", "/404.html"]));
    assert_eq!(parse_path("/about"), strings(&["/about.html", "/about/index.html", "/404.html"]));
    assert_eq!(parse_path("/a/b.html"), strings(&["/a/b.html", "/404.html"]));
}

#[test]
fn candidate_paths_for_resource() {
    assert_eq!(
        parse_path("/img/x/icon.ico"),
        strings(&["/img/x/icon.ico", "/img/icon.ico", "/icon.ico"])
    );
    assert_eq!(
        candidate_paths("/a/f.css", Some("f.css".to_string()), strings(&["/a/f.css", "/a//", "/"])),
        strings(&["/a/f.css", "/f.css"])
    );
    assert_eq!(
        candidate_paths("x.png", Some("x.png".to_string()), Vec::new()),
        Vec::<String>::new()
    );
}

#[test]
fn extension_follows_std() {
    for name in ["a.txt", "archive.tar.gz", ".bashrc", ".config.toml", "noext", "trailing.", "", "..x"] {
        let expected = std::path::Path::new(name).extension().map(|e| e.to_str().unwrap().to_string());
        assert_eq!(extension(name), expected, "{}", name);
    }
    assert_eq!(extension("a.txt"), Some("txt".to_string()));
    assert_eq!(extension(".bashrc"), None);
}

#[test]
fn plain_relative_and_absolute_resources() {
    assert_eq!(parse_path("img/logo.png"), strings(&["img/logo.png", "/logo.png"]));
    assert_eq!(parse_path("/a/b/c.css"), strings(&["/a/b/c.css", "/a/c.css", "/c.css"]));
    assert_eq!(parse_path("/c.css"), strings(&["/c.css"]));
    assert_eq!(parse_path("/page.html"), strings(&["/page.html", "/404.html"]));
    assert_eq!(parse_path("docs/intro"), strings(&["docs/intro.html", "docs/intro/index.html", "/404.html"]));
}

#[test]
fn directory_and_file_keys() {
    assert_eq!(directory_key("/", "img"), "/img/");
    assert_eq!(content_key("/img/", "logo.png"), "/img/logo.png");
}

#[test]
fn hidden_file_without_extension_is_a_page_name() {
    assert_eq!(parse_path("/.hidden"), strings(&["/.hidden.html", "/.hidden/index.html", "/404.html"]));
}

#[test]
fn trims_trailing_slashes() {
    assert_eq!(trim_end_slashes("/a//"), "/a");
    assert_eq!(trim_end_slashes("/"), "");
    assert_eq!(trim_end_slashes("a/b"), "a/b");
}

#[test]
fn first_match_finds_first_known_key() {
    let cands = strings(&["/a.html", "/a/index.html", "/404.html"]);
    assert_eq!(first_match(&cands, &strings(&["/404.html", "/a/index.html"])), Some(1));
    assert_eq!(first_match(&cands, &strings(&["/b"])), None);
}

#[test]
fn responses() {
    assert_eq!(full_response(Some("hi")), "HTTP/1.1 200 OK\r\nContent-Length: 2\r\n\r\nhi");
    assert_eq!(full_response(Some("h\u{e9}")), "HTTP/1.1 200 OK\r\nContent-Length: 3\r\n\r\nh\u{e9}");
    assert_eq!(full_response(None), "HTTP/1.1 404 NOT FOUND\r\n\r\n");
    assert_eq!(ok_response(""), "HTTP/1.1 200 OK\r\nContent-Length: 0\r\n\r\n");
}

#[test]
fn join_request_lines() {
    assert_eq!(join_lines(&strings(&["GET / HTTP/1.1", "Host: x"])), "GET / HTTP/1.1\nHost: x\n");
    assert_eq!(join_lines(&Vec::new()), "");
}

#[test]
fn translate_with_glossary() {
    let gloss = vec![
        ("in".to_string(), "into".to_string()),
        ("as".to_string(), "ass".to_string()),
        ("piece".to_string(), "zein paice".to_string()),
        ("a".to_string(), "one".to_string()),
        ("single".to_string(), "singular".to_string()),
    ];
    assert_eq!(
        translate_words("a single piece\tin  as other\n", &gloss),
        "onesingularzein paiceintoassother"
    );
    assert_eq!(translate_words("   ", &gloss), "");
    assert_eq!(translate_words("", &gloss), "");
}

#[test]
fn whitespace_matches_std() {
    for c in ['\t', '\n', '\u{b}', '\u{c}', '\r', ' ', '\u{85}', '\u{a0}', '\u{1680}', '\u{2000}', '\u{200a}', '\u{2028}', '\u{2029}', '\u{202f}', '\u{205f}', '\u{3000}', 'a', '\u{200b}', '\u{180e}', '0'] {
        assert_eq!(is_whitespace(c), c.is_whitespace(), "{:?}", c);
    }
}

#[test]
fn std_paths_agree_on_plain_paths() {
    let anc = |p: &str| std::path::Path::new(p).ancestors().map(|a| a.to_str().unwrap().to_string()).collect::<Vec<_>>();
    assert_eq!(anc("/a/b/c.css"), strings(&["/a/b/c.css", "/a/b", "/a", "/"]));
    assert_eq!(anc("img/logo.png"), strings(&["img/logo.png", "img", ""]));
    assert_eq!(std::path::Path::new("/a/b/c.css").file_name().unwrap(), "c.css");
    assert_eq!(std::path::Path::new("img").file_name().unwrap(), "img");
}
