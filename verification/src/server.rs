use vstd::prelude::*;
use crate::address::{all_digits, decimal, digits_value, lemma_decimal_reads_back, push_decimal};
use crate::text::{chars_of, push_char};
use crate::http_msgs::opt_string_view;

verus! {

/// The text with every `/` at its end removed (std's `trim_end_matches('/')`).
pub open spec fn trim_slashes(s: Seq<char>) -> Seq<char>
    decreases s.len(),
{
    if s.len() > 0 && s.last() == '/' {
        trim_slashes(s.drop_last())
    } else {
        s
    }
}

/// The text ends with `/`.
pub open spec fn ends_with_slash(s: Seq<char>) -> bool {
    s.len() > 0 && s.last() == '/'
}

/// The text of each string.
pub open spec fn strings_view(v: Seq<String>) -> Seq<Seq<char>> {
    v.map_values(|s: String| s@)
}

/// The position of the last `.` among the first `i` characters of `f`, or -1.
pub open spec fn last_dot(f: Seq<char>, i: int) -> int
    decreases i,
{
    if i <= 0 {
        -1
    } else if f[i - 1] == '.' {
        i - 1
    } else {
        last_dot(f, i - 1)
    }
}

/// The extension of a file name, as std's `Path::extension` documents it:
/// nothing when the name holds no `.`, or only one at its start; otherwise
/// what follows the last `.`.
pub open spec fn extension_of(file_name: Seq<char>) -> Option<Seq<char>> {
    let p = last_dot(file_name, file_name.len() as int);
    if p <= 0 {
        None
    } else {
        Some(file_name.skip(p + 1))
    }
}

/// The files to look for, in order, when `path` is requested, given the
/// file name of `path` (its last component) and its ancestors (`path` itself first):
/// - a directory (`path` ends with `/`): its `index.html`, then `/404.html`;
/// - a page (extension `html`): `path`, then `/404.html`;
/// - another resource: the file name in each enclosing directory, innermost first;
/// - no extension: `path.html`, then `path/index.html`, then `/404.html`.
pub open spec fn candidate_paths_spec(
    path: Seq<char>,
    file_name: Option<Seq<char>>,
    ancestors: Seq<Seq<char>>,
) -> Seq<Seq<char>> {
    if ends_with_slash(path) {
        seq![path + "index.html"@, "/404.html"@]
    } else {
        match file_name {
            Some(f) => match extension_of(f) {
                Some(e) => if e != "html"@ {
                    if ancestors.len() > 0 {
                        ancestors.skip(1).map_values(|a: Seq<char>| trim_slashes(a) + "/"@ + f)
                    } else {
                        Seq::empty()
                    }
                } else {
                    seq![path, "/404.html"@]
                },
                None => seq![path + ".html"@, path + "/index.html"@, "/404.html"@],
            },
            None => seq![path + ".html"@, path + "/index.html"@, "/404.html"@],
        }
    }
}

/// The position of the last `/` among the first `i` characters of `p`, or -1.
pub open spec fn last_slash(p: Seq<char>, i: int) -> int
    decreases i,
{
    if i <= 0 {
        -1
    } else if p[i - 1] == '/' {
        i - 1
    } else {
        last_slash(p, i - 1)
    }
}

/// A path whose syntax is the same on every platform: not empty, not ending
/// with `/`, without `\`, `:` or `//`, and with no component `.` or `..`.
pub open spec fn is_plain_path(p: Seq<char>) -> bool {
    &&& p.len() > 0
    &&& !ends_with_slash(p)
    &&& forall|i: int| 0 <= i < p.len() ==> p[i] != '\\' && p[i] != ':'
    &&& forall|i: int| 0 <= i < p.len() - 1 ==> !(#[trigger] p[i] == '/' && p[i + 1] == '/')
    &&& forall|a: int|
        0 <= a < p.len() && (a == 0 || p[a - 1] == '/') && #[trigger] p[a] == '.' ==> {
            &&& !(a + 1 == p.len() || p[a + 1] == '/')
            &&& !(a + 1 < p.len() && p[a + 1] == '.' && (a + 2 == p.len() || p[a + 2] == '/'))
        }
}

/// The last component of a plain path: the text after its last `/`.
pub open spec fn plain_file_name(p: Seq<char>) -> Seq<char> {
    p.skip(last_slash(p, p.len() as int) + 1)
}

/// The parent of a plain path: the text before its last `/`; `/` when that
/// is its first character; the empty path when it holds no `/`.
pub open spec fn plain_parent(p: Seq<char>) -> Seq<char> {
    let k = last_slash(p, p.len() as int);
    if k < 0 {
        Seq::empty()
    } else if k == 0 {
        seq!['/']
    } else {
        p.take(k)
    }
}

/// `last_slash` names a `/` before position `i`, or is -1.
pub proof fn lemma_last_slash_range(p: Seq<char>, i: int)
    requires
        i <= p.len(),
    ensures
        -1 <= last_slash(p, i) < i || (i <= 0 && last_slash(p, i) == -1),
        last_slash(p, i) >= 0 ==> p[last_slash(p, i)] == '/',
    decreases i,
{
    if i > 0 && p[i - 1] != '/' {
        lemma_last_slash_range(p, i - 1);
    }
}

/// A path followed by its parent, the parent's parent, and so on: down to
/// `/` for an absolute path, to the empty path for a relative one.
pub open spec fn plain_ancestors(p: Seq<char>) -> Seq<Seq<char>>
    decreases p.len(),
{
    if p.len() == 0 || p == seq!['/'] {
        seq![p]
    } else {
        proof {
            lemma_last_slash_range(p, p.len() as int);
            if last_slash(p, p.len() as int) == 0 && p.len() == 1 {
                assert(p =~= seq!['/']);
            }
            assert(plain_parent(p).len() < p.len());
        }
        seq![p] + plain_ancestors(plain_parent(p))
    }
}

/// The last component of a path (std's `Path::file_name`).
/// Trusted: for a plain path (see `is_plain_path`) std documents the same
/// result on every platform, the text after the last `/`. Of other paths,
/// whose syntax differs between platforms, nothing is stated.
#[verifier::external_body]
fn path_file_name(path: &str) -> (r: Option<String>)
    ensures
        is_plain_path(path@) ==> opt_string_view(r) == Some(plain_file_name(path@)),
{
    match std::path::Path::new(path).file_name() {
        Some(f) => Some(f.to_string_lossy().into_owned()),
        None => None,
    }
}

/// The extension of a file name (see `extension_of`).
pub fn extension(file_name: &str) -> (r: Option<String>)
    ensures
        opt_string_view(r) == extension_of(file_name@),
{
    let f = chars_of(file_name);
    let mut i: usize = f.len();
    while i > 0 && f[i - 1] != '.'
        invariant
            f@ == file_name@,
            i <= f@.len(),
            last_dot(f@, f@.len() as int) == last_dot(f@, i as int),
        decreases i,
    {
        i = i - 1;
    }
    if i <= 1 {
        None
    } else {
        Some(String::from_str(file_name.substring_char(i, f.len())))
    }
}

/// A path and each of its parents in turn (std's `Path::ancestors`).
/// Trusted: as std documents, the first is the path itself; for a plain
/// path (see `is_plain_path`) the parents are the shorter `/`-prefixes, the
/// same on every platform. Of the parents of other paths nothing is stated.
#[verifier::external_body]
fn path_ancestors(path: &str) -> (r: Vec<String>)
    ensures
        r@.len() >= 1,
        r@[0]@ == path@,
        is_plain_path(path@) ==> strings_view(r@) == plain_ancestors(path@),
{
    let mut v = Vec::new();
    for a in std::path::Path::new(path).ancestors() {
        v.push(a.to_string_lossy().into_owned());
    }
    v
}

/// `s` without the `/` characters at its end.
pub fn trim_end_slashes(s: &str) -> (r: String)
    ensures
        r@ == trim_slashes(s@),
{
    let v = chars_of(s);
    let mut end: usize = v.len();
    assert(s@.take(end as int) =~= s@);
    while end > 0 && v[end - 1] == '/'
        invariant
            v@ == s@,
            end <= v@.len(),
            trim_slashes(s@) == trim_slashes(s@.take(end as int)),
        decreases end,
    {
        assert(s@.take(end as int).drop_last() =~= s@.take(end - 1));
        end = end - 1;
    }
    assert(trim_slashes(s@.take(end as int)) == s@.take(end as int));
    let r = s.substring_char(0, end);
    String::from_str(r)
}

/// A `String` holding the text of `a` followed by that of `b`.
fn concat2(a: &str, b: &str) -> (r: String)
    ensures
        r@ == a@ + b@,
{
    let mut r = String::from_str(a);
    r.append(b);
    r
}

/// The files to look for when `path` is requested, from what std's path
/// functions tell of `path` (see `candidate_paths_spec`).
pub fn candidate_paths(path: &str, file_name: Option<String>, ancestors: Vec<String>) -> (r: Vec<String>)
    ensures
        strings_view(r@) == candidate_paths_spec(path@, opt_string_view(file_name), strings_view(ancestors@)),
{
    let ghost spec_r = candidate_paths_spec(path@, opt_string_view(file_name), strings_view(ancestors@));
    let mut final_paths: Vec<String> = Vec::new();
    let pv = chars_of(path);
    if pv.len() > 0 && pv[pv.len() - 1] == '/' {
        final_paths.push(concat2(path, "index.html"));
        final_paths.push(String::from_str("/404.html"));
        assert(strings_view(final_paths@) =~= spec_r);
        return final_paths;
    }
    let path_ext = match &file_name {
        Some(f) => extension(f.as_str()),
        None => None,
    };
    match (&file_name, &path_ext) {
        (Some(final_name), Some(path_ext)) => {
            if !str_is(path_ext.as_str(), "html") {
                if ancestors.len() > 0 {
                    let mut i: usize = 1;
                    assert(strings_view(final_paths@) =~= strings_view(ancestors@).subrange(1, 1).map_values(
                        |a: Seq<char>| trim_slashes(a) + "/"@ + final_name@));
                    while i < ancestors.len()
                        invariant
                            1 <= i <= ancestors@.len(),
                            strings_view(final_paths@) == strings_view(ancestors@).subrange(1, i as int).map_values(
                                |a: Seq<char>| trim_slashes(a) + "/"@ + final_name@),
                        decreases ancestors@.len() - i,
                    {
                        let ancestor_str = trim_end_slashes(ancestors[i].as_str());
                        let mut p = concat2(ancestor_str.as_str(), "/");
                        p.append(final_name.as_str());
                        let ghost before = final_paths@;
                        final_paths.push(p);
                        proof {
                            let a = strings_view(final_paths@);
                            let b = strings_view(ancestors@).subrange(1, i + 1).map_values(
                                |a: Seq<char>| trim_slashes(a) + "/"@ + final_name@);
                            let a0 = strings_view(before);
                            let b0 = strings_view(ancestors@).subrange(1, i as int).map_values(
                                |a: Seq<char>| trim_slashes(a) + "/"@ + final_name@);
                            assert(a0.len() == b0.len());
                            assert forall|j: int| 0 <= j < a.len() implies a[j] == b[j] by {
                                if j < before.len() {
                                    assert(a0[j] == b0[j]);
                                }
                            }
                            assert(a =~= b);
                        }
                        i = i + 1;
                    }
                    assert(strings_view(ancestors@).subrange(1, ancestors@.len() as int)
                        =~= strings_view(ancestors@).skip(1));
                } else {
                    assert(strings_view(final_paths@) =~= spec_r);
                }
            } else {
                final_paths.push(String::from_str(path));
                final_paths.push(String::from_str("/404.html"));
                assert(strings_view(final_paths@) =~= spec_r);
            }
        },
        _ => {
            final_paths.push(concat2(path, ".html"));
            final_paths.push(concat2(path, "/index.html"));
            final_paths.push(String::from_str("/404.html"));
            assert(strings_view(final_paths@) =~= spec_r);
        },
    }
    final_paths
}

/// Whether `a` and `b` hold the same text.
fn str_is(a: &str, b: &str) -> (r: bool)
    ensures
        r == (a@ == b@),
{
    let av = chars_of(a);
    let bv = chars_of(b);
    if av.len() != bv.len() {
        return false;
    }
    let mut i: usize = 0;
    while i < av.len()
        invariant
            av@ == a@,
            bv@ == b@,
            av@.len() == bv@.len(),
            i <= av@.len(),
            forall|j: int| 0 <= j < i ==> av@[j] == bv@[j],
        decreases av@.len() - i,
    {
        if av[i] != bv[i] {
            return false;
        }
        i = i + 1;
    }
    assert(a@ =~= b@);
    true
}

}

verus! {

/// The files to look for, in order, when `path` is requested (see
/// `candidate_paths_spec`); the file name and ancestors of `path` come from
/// std's path functions. For a plain path these are fixed; for a path whose
/// syntax differs between platforms they are the platform's.
pub fn parse_path(path: &str) -> (r: Vec<String>)
    ensures
        is_plain_path(path@) ==> strings_view(r@) == candidate_paths_spec(
            path@,
            Some(plain_file_name(path@)),
            plain_ancestors(path@),
        ),
        exists|file_name: Option<Seq<char>>, ancestors: Seq<Seq<char>>|
            ancestors.len() >= 1 && ancestors[0] == path@ && strings_view(r@)
                == #[trigger] candidate_paths_spec(path@, file_name, ancestors),
{
    let file_name = path_file_name(path);
    let ancestors = path_ancestors(path);
    let ghost f = opt_string_view(file_name);
    let ghost a = strings_view(ancestors@);
    assert(a[0] == path@);
    let r = candidate_paths(path, file_name, ancestors);
    assert(strings_view(r@) == candidate_paths_spec(path@, f, a));
    r
}

/// The key under which a file is found: the key of its directory followed
/// by its name.
pub fn content_key(key_root: &str, file_name: &str) -> (r: String)
    ensures
        r@ == key_root@ + file_name@,
{
    concat2(key_root, file_name)
}

/// The key of a subdirectory: the key of its parent, its name, then `/`.
pub fn directory_key(key_root: &str, dir_name: &str) -> (r: String)
    ensures
        r@ == key_root@ + dir_name@ + "/"@,
{
    let mut r = concat2(key_root, dir_name);
    r.append("/");
    r
}

/// The index of the first candidate that is one of `keys`, if any.
pub fn first_match(candidates: &Vec<String>, keys: &Vec<String>) -> (r: Option<usize>)
    ensures
        match r {
            Some(i) => {
                &&& i < candidates@.len()
                &&& strings_view(keys@).contains(candidates@[i as int]@)
                &&& forall|j: int| 0 <= j < i ==> !strings_view(keys@).contains(#[trigger] candidates@[j]@)
            },
            None => forall|j: int| 0 <= j < candidates@.len() ==> !strings_view(keys@).contains(#[trigger] candidates@[j]@),
        },
{
    let mut i: usize = 0;
    while i < candidates.len()
        invariant
            i <= candidates@.len(),
            forall|j: int| 0 <= j < i ==> !strings_view(keys@).contains(#[trigger] candidates@[j]@),
        decreases candidates@.len() - i,
    {
        let mut k: usize = 0;
        while k < keys.len()
            invariant
                i < candidates@.len(),
                forall|j: int| 0 <= j < i ==> !strings_view(keys@).contains(#[trigger] candidates@[j]@),
                k <= keys@.len(),
                forall|t: int| 0 <= t < k ==> keys@[t]@ != candidates@[i as int]@,
            decreases keys@.len() - k,
        {
            if str_is(keys[k].as_str(), candidates[i].as_str()) {
                assert(strings_view(keys@)[k as int] == candidates@[i as int]@);
                return Some(i);
            }
            k = k + 1;
        }
        assert(!strings_view(keys@).contains(candidates@[i as int]@)) by {
            if strings_view(keys@).contains(candidates@[i as int]@) {
                let t = choose|t: int| 0 <= t < keys@.len() && strings_view(keys@)[t] == candidates@[i as int]@;
                assert(keys@[t]@ == candidates@[i as int]@);
            }
        }
        i = i + 1;
    }
    None
}

/// The request as the lines read from the client, each ended by a newline.
pub fn join_lines(lines: &Vec<String>) -> (r: String)
    ensures
        r@ == joined_lines(strings_view(lines@)),
{
    let mut res = String::new();
    let mut i: usize = 0;
    while i < lines.len()
        invariant
            i <= lines@.len(),
            res@ == joined_lines(strings_view(lines@).take(i as int)),
        decreases lines@.len() - i,
    {
        res.append(lines[i].as_str());
        push_char(&mut res, '\n');
        assert(strings_view(lines@).take(i + 1).drop_last() =~= strings_view(lines@).take(i as int));
        i = i + 1;
    }
    assert(strings_view(lines@).take(lines@.len() as int) =~= strings_view(lines@));
    res
}

/// Each line followed by a newline, one after the other.
pub open spec fn joined_lines(ls: Seq<Seq<char>>) -> Seq<char>
    decreases ls.len(),
{
    if ls.len() == 0 {
        Seq::empty()
    } else {
        joined_lines(ls.drop_last()) + ls.last() + seq!['\n']
    }
}

/// The response carrying a found file of `byte_len` bytes, or the
/// "not found" response.
pub open spec fn full_response_spec(content: Option<Seq<char>>, byte_len: nat) -> Seq<char> {
    match content {
        Some(c) => ok_response_spec(c, byte_len),
        None => "HTTP/1.1 404 NOT FOUND\r\n\r\n"@,
    }
}

/// The response to send for a request whose file has the given content,
/// or `None` when no file was found. The length sent is the content's
/// length in bytes.
pub fn full_response(content: Option<&str>) -> (r: String)
    ensures
        r@ == full_response_spec(
            match content {
                Some(c) => Some(c@),
                None => None,
            },
            match content {
                Some(c) => c.len() as nat,
                None => 0,
            },
        ),
{
    match content {
        Some(content) => ok_response(content),
        None => String::from_str("HTTP/1.1 404 NOT FOUND\r\n\r\n"),
    }
}

/// The response that reports success, with the content found and its
/// length `byte_len` in bytes.
pub open spec fn ok_response_spec(content: Seq<char>, byte_len: nat) -> Seq<char> {
    "HTTP/1.1 200 OK\r\nContent-Length: "@ + decimal(byte_len) + "\r\n\r\n"@ + content
}

/// The success response for the given content (empty when none was found).
pub fn ok_response(content: &str) -> (r: String)
    ensures
        r@ == ok_response_spec(content@, content.len() as nat),
{
    let mut res = String::from_str("HTTP/1.1 200 OK\r\nContent-Length: ");
    push_decimal(&mut res, content.len() as u64);
    res.append("\r\n\r\n");
    res.append(content);
    res
}

/// The success response is the status line, `Content-Length: ` and a run of
/// decimal digits that reads back as the content's byte length, a blank
/// line, then the content itself.
pub proof fn lemma_ok_response_length(content: Seq<char>, byte_len: nat)
    ensures
        exists|d: Seq<char>|
            #![trigger digits_value(d)]
            d.len() > 0 && all_digits(d) && digits_value(d) == byte_len
                && ok_response_spec(content, byte_len) == "HTTP/1.1 200 OK\r\nContent-Length: "@ + d
                + "\r\n\r\n"@ + content,
{
    lemma_decimal_reads_back(byte_len);
    let d = decimal(byte_len);
    assert(digits_value(d) == byte_len);
}

proof fn lemma_last_dot(f: Seq<char>, i: int)
    requires
        0 <= i <= f.len(),
    ensures
        -1 <= last_dot(f, i) < i,
        last_dot(f, i) >= 0 ==> f[last_dot(f, i)] == '.',
        forall|j: int| last_dot(f, i) < j < i ==> f[j] != '.',
    decreases i,
{
    if i > 0 && f[i - 1] != '.' {
        lemma_last_dot(f, i - 1);
    }
}

/// A file name has an extension exactly when it holds a `.` after its first
/// character; the extension is then what follows the last `.`, and holds no
/// `.` itself: the name is a non-empty stem, a `.`, and the extension.
pub proof fn lemma_extension_of(f: Seq<char>)
    ensures
        extension_of(f) is Some <==> exists|j: int| 0 < j < f.len() && f[j] == '.',
        extension_of(f) matches Some(e) ==> {
            &&& !e.contains('.')
            &&& exists|stem: Seq<char>| stem.len() > 0 && f == stem + seq!['.'] + e
        },
{
    lemma_last_dot(f, f.len() as int);
    let p = last_dot(f, f.len() as int);
    if p > 0 {
        let e = f.skip(p + 1);
        assert forall|j: int| 0 <= j < e.len() implies e[j] != '.' by {
            assert(e[j] == f[p + 1 + j]);
        }
        assert(f =~= f.take(p) + seq!['.'] + e);
    } else {
        assert forall|j: int| 0 < j < f.len() implies f[j] != '.' by {}
    }
}

/// Trimming removes the `/` characters at the end, and only those: the
/// result does not end with `/`, and the text is the result followed by
/// nothing but `/` characters.
pub proof fn lemma_trim_slashes(s: Seq<char>)
    ensures
        !ends_with_slash(trim_slashes(s)),
        trim_slashes(s).len() <= s.len(),
        s.take(trim_slashes(s).len() as int) == trim_slashes(s),
        forall|j: int| trim_slashes(s).len() <= j < s.len() ==> s[j] == '/',
    decreases s.len(),
{
    if s.len() > 0 && s.last() == '/' {
        lemma_trim_slashes(s.drop_last());
        let t = trim_slashes(s.drop_last());
        assert(s.drop_last().take(t.len() as int) =~= s.take(t.len() as int));
        assert forall|j: int| t.len() <= j < s.len() implies s[j] == '/' by {
            if j < s.len() - 1 {
                assert(s.drop_last()[j] == s[j]);
            }
        }
    } else {
        assert(s.take(s.len() as int) =~= s);
    }
}

}
