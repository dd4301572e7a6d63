use vstd::prelude::*;
use crate::text::{chars_of, push_char};

verus! {

/// Whether `c` is white space in Unicode's sense (std's `char::is_whitespace`).
pub open spec fn is_white_space(c: char) -> bool {
    let v = c as u32;
    ||| 0x09 <= v <= 0x0D
    ||| v == 0x20
    ||| v == 0x85
    ||| v == 0xA0
    ||| v == 0x1680
    ||| 0x2000 <= v <= 0x200A
    ||| v == 0x2028
    ||| v == 0x2029
    ||| v == 0x202F
    ||| v == 0x205F
    ||| v == 0x3000
}

/// The words of `s[start..]`, reading on from `i`, where `s[start..i]` holds no
/// white space: the longest runs of characters that are not white space.
pub open spec fn words_scan(s: Seq<char>, start: int, i: int) -> Seq<Seq<char>>
    decreases s.len() - i,
{
    if i >= s.len() {
        if start < s.len() {
            seq![s.subrange(start, s.len() as int)]
        } else {
            Seq::empty()
        }
    } else if is_white_space(s[i]) {
        (if start < i { seq![s.subrange(start, i)] } else { Seq::empty() }) + words_scan(s, i + 1, i + 1)
    } else {
        words_scan(s, start, i + 1)
    }
}

/// The words of `s`, as std's `split_whitespace` yields them.
pub open spec fn words_of(s: Seq<char>) -> Seq<Seq<char>> {
    words_scan(s, 0, 0)
}

/// The entries of a glossary as text.
pub open spec fn gloss_view(gloss: Seq<(String, String)>) -> Seq<(Seq<char>, Seq<char>)> {
    gloss.map_values(|e: (String, String)| (e.0@, e.1@))
}

/// What the glossary says for `w`: the meaning in its first entry for `w`.
pub open spec fn lookup(gloss: Seq<(Seq<char>, Seq<char>)>, w: Seq<char>) -> Option<Seq<char>>
    decreases gloss.len(),
{
    if gloss.len() == 0 {
        None
    } else if gloss[0].0 == w {
        Some(gloss[0].1)
    } else {
        lookup(gloss.drop_first(), w)
    }
}

/// A word, or what the glossary gives for it.
pub open spec fn translate_word(gloss: Seq<(Seq<char>, Seq<char>)>, w: Seq<char>) -> Seq<char> {
    match lookup(gloss, w) {
        Some(m) => m,
        None => w,
    }
}

/// The translated words one after the other, with nothing between them.
pub open spec fn translated(gloss: Seq<(Seq<char>, Seq<char>)>, words: Seq<Seq<char>>) -> Seq<char>
    decreases words.len(),
{
    if words.len() == 0 {
        Seq::empty()
    } else {
        translated(gloss, words.drop_last()) + translate_word(gloss, words.last())
    }
}

/// Whether `c` is white space.
pub fn is_whitespace(c: char) -> (r: bool)
    ensures
        r == is_white_space(c),
{
    let v = c as u32;
    (0x09 <= v && v <= 0x0D) || v == 0x20 || v == 0x85 || v == 0xA0 || v == 0x1680 || (0x2000 <= v
        && v <= 0x200A) || v == 0x2028 || v == 0x2029 || v == 0x202F || v == 0x205F || v == 0x3000
}

fn chars_eq(a: &Vec<char>, b: &Vec<char>) -> (r: bool)
    ensures
        r == (a@ == b@),
{
    if a.len() != b.len() {
        return false;
    }
    let mut i: usize = 0;
    while i < a.len()
        invariant
            a@.len() == b@.len(),
            i <= a@.len(),
            forall|j: int| 0 <= j < i ==> a@[j] == b@[j],
        decreases a@.len() - i,
    {
        if a[i] != b[i] {
            return false;
        }
        i = i + 1;
    }
    assert(a@ =~= b@);
    true
}

/// Appends to `out` the word, or its meaning when the glossary has one.
fn push_translation(out: &mut String, gloss: &Vec<(String, String)>, word: &Vec<char>)
    ensures
        final(out)@ == old(out)@ + translate_word(gloss_view(gloss@), word@),
{
    let ghost g = gloss_view(gloss@);
    let mut i: usize = 0;
    assert(g.skip(0) =~= g);
    while i < gloss.len()
        invariant
            i <= gloss@.len(),
            g == gloss_view(gloss@),
            lookup(g, word@) == lookup(g.skip(i as int), word@),
            *out == *old(out),
        decreases gloss@.len() - i,
    {
        let key = chars_of(gloss[i].0.as_str());
        assert(g.skip(i as int)[0] == g[i as int]);
        assert(g.skip(i as int).drop_first() =~= g.skip(i + 1));
        if chars_eq(&key, word) {
            out.append(gloss[i].1.as_str());
            return;
        }
        i = i + 1;
    }
    assert(g.skip(i as int).len() == 0);
    let mut j: usize = 0;
    assert(out@ =~= old(out)@ + word@.take(0));
    while j < word.len()
        invariant
            j <= word@.len(),
            lookup(g, word@) is None,
            g == gloss_view(gloss@),
            out@ == old(out)@ + word@.take(j as int),
        decreases word@.len() - j,
    {
        push_char(out, word[j]);
        assert(out@ =~= old(out)@ + word@.take(j + 1));
        j = j + 1;
    }
    assert(word@.take(word@.len() as int) =~= word@);
}

/// The words of `content`, each replaced by its meaning where the glossary has
/// one, one after the other with nothing between them.
pub fn translate_words(content: &str, gloss: &Vec<(String, String)>) -> (r: String)
    ensures
        r@ == translated(gloss_view(gloss@), words_of(content@)),
{
    let s = chars_of(content);
    let ghost g = gloss_view(gloss@);
    let ghost done: Seq<Seq<char>> = Seq::empty();
    let mut res = String::new();
    let mut word: Vec<char> = Vec::new();
    let mut start: usize = 0;
    let mut i: usize = 0;
    while i < s.len()
        invariant
            s@ == content@,
            g == gloss_view(gloss@),
            start <= i <= s@.len(),
            word@ == s@.subrange(start as int, i as int),
            words_of(s@) == done + words_scan(s@, start as int, i as int),
            res@ == translated(g, done),
        decreases s@.len() - i,
    {
        let c = s[i];
        if is_whitespace(c) {
            if start < i {
                push_translation(&mut res, gloss, &word);
                proof {
                    let w = s@.subrange(start as int, i as int);
                    assert((done + seq![w]).drop_last() =~= done);
                    done = done + seq![w];
                }
            } else {
                assert(seq![] + words_scan(s@, i + 1, i + 1) =~= words_scan(s@, i + 1, i + 1));
            }
            word = Vec::new();
            start = i + 1;
            proof {
                assert(words_of(s@) =~= done + words_scan(s@, start as int, start as int));
            }
        } else {
            word.push(c);
            assert(word@ =~= s@.subrange(start as int, i + 1));
        }
        i = i + 1;
    }
    if start < s.len() {
        push_translation(&mut res, gloss, &word);
        proof {
            let w = s@.subrange(start as int, s@.len() as int);
            assert((done + seq![w]).drop_last() =~= done);
            assert(words_of(s@) =~= done + seq![w]);
        }
    } else {
        assert(words_of(s@) =~= done);
    }
    res
}

/// A word is replaced only by the meaning of an entry whose key is the whole
/// word, the first such entry; a word that no key equals stays as it is.
pub proof fn lemma_translate_word_whole_keys(gloss: Seq<(Seq<char>, Seq<char>)>, w: Seq<char>)
    ensures
        (forall|i: int| 0 <= i < gloss.len() ==> (#[trigger] gloss[i]).0 != w) ==> translate_word(gloss, w) == w,
        forall|i: int|
            0 <= i < gloss.len() && (#[trigger] gloss[i]).0 == w && (forall|j: int| 0 <= j < i ==> gloss[j].0 != w)
                ==> translate_word(gloss, w) == gloss[i].1,
    decreases gloss.len(),
{
    if gloss.len() > 0 {
        let rest = gloss.drop_first();
        lemma_translate_word_whole_keys(rest, w);
        if gloss[0].0 != w {
            assert forall|i: int|
                0 <= i < gloss.len() && (#[trigger] gloss[i]).0 == w && (forall|j: int| 0 <= j < i ==> gloss[j].0 != w)
                    implies translate_word(gloss, w) == gloss[i].1 by {
                assert(i > 0);
                assert(rest[i - 1] == gloss[i]);
                assert forall|j: int| 0 <= j < i - 1 implies rest[j].0 != w by {
                    assert(rest[j] == gloss[j + 1]);
                }
            }
            if forall|i: int| 0 <= i < gloss.len() ==> (#[trigger] gloss[i]).0 != w {
                assert forall|i: int| 0 <= i < rest.len() implies (#[trigger] rest[i]).0 != w by {
                    assert(rest[i] == gloss[i + 1]);
                }
            }
        } else {
            assert forall|i: int|
                0 <= i < gloss.len() && (#[trigger] gloss[i]).0 == w && (forall|j: int| 0 <= j < i ==> gloss[j].0 != w)
                    implies translate_word(gloss, w) == gloss[i].1 by {
                if i > 0 {
                    assert(gloss[0].0 != w);
                }
            }
        }
    }
}

/// The characters of `s` that are not white space, in order.
pub open spec fn non_white(s: Seq<char>) -> Seq<char>
    decreases s.len(),
{
    if s.len() == 0 {
        Seq::empty()
    } else if is_white_space(s.last()) {
        non_white(s.drop_last())
    } else {
        non_white(s.drop_last()).push(s.last())
    }
}

/// The words one after the other.
pub open spec fn joined_words(ws: Seq<Seq<char>>) -> Seq<char>
    decreases ws.len(),
{
    if ws.len() == 0 {
        Seq::empty()
    } else {
        joined_words(ws.drop_last()) + ws.last()
    }
}

proof fn lemma_non_white_add(a: Seq<char>, b: Seq<char>)
    ensures
        non_white(a + b) == non_white(a) + non_white(b),
    decreases b.len(),
{
    if b.len() == 0 {
        assert(a + b =~= a);
        assert(non_white(a) + non_white(b) =~= non_white(a));
    } else {
        assert((a + b).drop_last() =~= a + b.drop_last());
        assert((a + b).last() == b.last());
        lemma_non_white_add(a, b.drop_last());
        if is_white_space(b.last()) {
        } else {
            assert(non_white(a) + non_white(b.drop_last()).push(b.last())
                =~= (non_white(a) + non_white(b.drop_last())).push(b.last()));
        }
    }
}

proof fn lemma_non_white_of_word(w: Seq<char>)
    requires
        forall|j: int| 0 <= j < w.len() ==> !is_white_space(#[trigger] w[j]),
    ensures
        non_white(w) == w,
    decreases w.len(),
{
    if w.len() > 0 {
        let r = w.drop_last();
        assert forall|j: int| 0 <= j < r.len() implies !is_white_space(#[trigger] r[j]) by {
            assert(r[j] == w[j]);
        }
        lemma_non_white_of_word(r);
        assert(r.push(w.last()) =~= w);
    }
}

proof fn lemma_joined_words_add(a: Seq<Seq<char>>, b: Seq<Seq<char>>)
    ensures
        joined_words(a + b) == joined_words(a) + joined_words(b),
    decreases b.len(),
{
    if b.len() == 0 {
        assert(a + b =~= a);
        assert(joined_words(a) + joined_words(b) =~= joined_words(a));
    } else {
        assert((a + b).drop_last() =~= a + b.drop_last());
        assert((a + b).last() == b.last());
        lemma_joined_words_add(a, b.drop_last());
        assert(joined_words(a) + (joined_words(b.drop_last()) + b.last())
            =~= (joined_words(a) + joined_words(b.drop_last())) + b.last());
    }
}

proof fn lemma_words_scan(s: Seq<char>, start: int, i: int)
    requires
        0 <= start <= i <= s.len(),
        forall|j: int| start <= j < i ==> !is_white_space(#[trigger] s[j]),
    ensures
        forall|k: int| 0 <= k < words_scan(s, start, i).len() ==> {
            &&& (#[trigger] words_scan(s, start, i)[k]).len() > 0
            &&& forall|j: int| 0 <= j < words_scan(s, start, i)[k].len()
                ==> !is_white_space(#[trigger] words_scan(s, start, i)[k][j])
        },
        joined_words(words_scan(s, start, i)) == non_white(s.subrange(start, s.len() as int)),
    decreases s.len() - i,
{
    let ws = words_scan(s, start, i);
    if i >= s.len() {
        if start < s.len() {
            let w = s.subrange(start, s.len() as int);
            lemma_non_white_of_word(w);
            assert(ws == seq![w]);
            assert(seq![w].drop_last() =~= Seq::<Seq<char>>::empty());
            assert(seq![w].last() == w);
            assert(joined_words(ws) == joined_words(Seq::<Seq<char>>::empty()) + w);
            assert(Seq::<char>::empty() + w =~= w);
        } else {
            assert(s.subrange(start, s.len() as int) =~= Seq::<char>::empty());
        }
    } else if is_white_space(s[i]) {
        lemma_words_scan(s, i + 1, i + 1);
        let rest = words_scan(s, i + 1, i + 1);
        let first: Seq<Seq<char>> = if start < i { seq![s.subrange(start, i)] } else { Seq::empty() };
        assert(ws == first + rest);
        lemma_joined_words_add(first, rest);
        let w = s.subrange(start, i);
        lemma_non_white_of_word(w);
        if start < i {
            assert(seq![w].drop_last() =~= Seq::<Seq<char>>::empty());
            assert(seq![w].last() == w);
            assert(joined_words(first) == joined_words(Seq::<Seq<char>>::empty()) + w);
            assert(Seq::<char>::empty() + w =~= w);
        } else {
            assert(w =~= Seq::<char>::empty());
        }
        assert(joined_words(first) == w);
        let tail = s.subrange(i + 1, s.len() as int);
        assert(s.subrange(start, s.len() as int) =~= w + (seq![s[i]] + tail));
        lemma_non_white_add(w, seq![s[i]] + tail);
        lemma_non_white_add(seq![s[i]], tail);
        assert(seq![s[i]].drop_last() =~= Seq::<char>::empty());
        assert(seq![s[i]].last() == s[i]);
        assert(non_white(seq![s[i]]) == non_white(Seq::<char>::empty()));
        assert(non_white(seq![s[i]]) =~= Seq::<char>::empty());
        assert(Seq::<char>::empty() + non_white(tail) =~= non_white(tail));
        assert forall|k: int| 0 <= k < ws.len() implies {
            &&& (#[trigger] ws[k]).len() > 0
            &&& forall|j: int| 0 <= j < ws[k].len() ==> !is_white_space(#[trigger] ws[k][j])
        } by {
            if k < first.len() {
                assert(ws[k] == w);
                assert forall|j: int| 0 <= j < ws[k].len() implies !is_white_space(#[trigger] ws[k][j]) by {
                    assert(w[j] == s[start + j]);
                }
            } else {
                assert(ws[k] == rest[k - first.len()]);
            }
        }
    } else {
        lemma_words_scan(s, start, i + 1);
    }
}

/// The words of a text are non-empty and hold no white space, and together,
/// in order, they are exactly the characters of the text that are not white
/// space.
pub proof fn lemma_words_of(s: Seq<char>)
    ensures
        forall|k: int| 0 <= k < words_of(s).len() ==> {
            &&& (#[trigger] words_of(s)[k]).len() > 0
            &&& forall|j: int| 0 <= j < words_of(s)[k].len() ==> !is_white_space(#[trigger] words_of(s)[k][j])
        },
        joined_words(words_of(s)) == non_white(s),
{
    lemma_words_scan(s, 0, 0);
    assert(s.subrange(0, s.len() as int) =~= s);
}

}
