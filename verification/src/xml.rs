//! The little XML the Blob service speaks: a listing naming blobs, an error
//! naming a code.
//!
//! Written by hand, both documents flat, and read back by a flat scan,
//! which is a scan, not a tree, because the one question either side asks
//! is the text of every element by one name.
use vstd::prelude::*;

use crate::text::{chars_of, extend_chars, extend_str, has_prefix, string_of};

verus! {

// ---------------------------------------------------------------------------
// Entities
// ---------------------------------------------------------------------------

/// What one character becomes in XML text or an attribute value.
pub open spec fn escape_char(c: char) -> Seq<char> {
    if c == '&' {
        "&amp;"@
    } else if c == '<' {
        "&lt;"@
    } else if c == '>' {
        "&gt;"@
    } else if c == '"' {
        "&quot;"@
    } else if c == '\'' {
        "&apos;"@
    } else {
        seq![c]
    }
}

/// `s` with `&`, `<`, `>`, `"` and `'` written as entities.
pub open spec fn escape(s: Seq<char>) -> Seq<char>
    decreases s.len(),
{
    if s.len() == 0 {
        seq![]
    } else {
        escape_char(s[0]) + escape(s.drop_first())
    }
}

/// `s` with the five entities written back as the characters they stand
/// for; any other `&` is left as it is.
pub open spec fn unescape(s: Seq<char>) -> Seq<char>
    decreases s.len(),
{
    proof {
        reveal_strlit("&amp;");
        reveal_strlit("&lt;");
        reveal_strlit("&gt;");
        reveal_strlit("&quot;");
        reveal_strlit("&apos;");
    }
    if s.len() == 0 {
        seq![]
    } else if has_prefix(s, "&amp;"@) {
        seq!['&'] + unescape(s.skip(5))
    } else if has_prefix(s, "&lt;"@) {
        seq!['<'] + unescape(s.skip(4))
    } else if has_prefix(s, "&gt;"@) {
        seq!['>'] + unescape(s.skip(4))
    } else if has_prefix(s, "&quot;"@) {
        seq!['"'] + unescape(s.skip(6))
    } else if has_prefix(s, "&apos;"@) {
        seq!['\''] + unescape(s.skip(6))
    } else {
        seq![s[0]] + unescape(s.drop_first())
    }
}

/// Appends the characters of `c` as XML writes them.
fn push_escaped(out: &mut Vec<char>, c: char)
    ensures
        final(out)@ == old(out)@ + escape_char(c),
{
    if c == '&' {
        extend_str(out, "&amp;");
    } else if c == '<' {
        extend_str(out, "&lt;");
    } else if c == '>' {
        extend_str(out, "&gt;");
    } else if c == '"' {
        extend_str(out, "&quot;");
    } else if c == '\'' {
        extend_str(out, "&apos;");
    } else {
        out.push(c);
    }
}

/// Appends `s` with the characters XML reserves written as entities.
pub fn extend_escaped(out: &mut Vec<char>, s: &str)
    ensures
        final(out)@ == old(out)@ + escape(s@),
{
    let chars = chars_of(s);
    let ghost start = out@;
    let mut i: usize = 0;
    assert(chars@.skip(0) =~= chars@);
    while i < chars.len()
        invariant
            i <= chars.len(),
            chars@ == s@,
            start + escape(s@) == out@ + escape(chars@.skip(i as int)),
        decreases chars.len() - i,
    {
        let ghost rest = chars@.skip(i as int);
        assert(rest.drop_first() =~= chars@.skip(i + 1));
        assert(rest[0] == chars@[i as int]);
        push_escaped(out, chars[i]);
        i = i + 1;
    }
    assert(chars@.skip(chars.len() as int) =~= seq![]);
}

/// Whether `p` stands in `s` at `i`.
fn prefix_at(s: &Vec<char>, i: usize, p: &Vec<char>) -> (r: bool)
    requires
        i <= s.len(),
    ensures
        r == has_prefix(s@.skip(i as int), p@),
{
    if p.len() > s.len() - i {
        return false;
    }
    let mut k: usize = 0;
    while k < p.len()
        invariant
            i + p.len() <= s.len(),
            k <= p.len(),
            forall|m: int| 0 <= m < k ==> s@[i + m] == p@[m],
        decreases p.len() - k,
    {
        if s[i + k] != p[k] {
            assert(s@.skip(i as int).take(p.len() as int)[k as int] != p@[k as int]);
            return false;
        }
        k = k + 1;
    }
    assert(s@.skip(i as int).take(p.len() as int) =~= p@);
    true
}

/// `s` with the five entities written back.
pub fn unescaped(s: &Vec<char>) -> (r: Vec<char>)
    ensures
        r@ == unescape(s@),
{
    let amp = chars_of("&amp;");
    let lt = chars_of("&lt;");
    let gt = chars_of("&gt;");
    let quot = chars_of("&quot;");
    let apos = chars_of("&apos;");
    proof {
        reveal_strlit("&amp;");
        reveal_strlit("&lt;");
        reveal_strlit("&gt;");
        reveal_strlit("&quot;");
        reveal_strlit("&apos;");
    }
    let mut out: Vec<char> = Vec::new();
    let mut i: usize = 0;
    assert(s@.skip(0) =~= s@);
    while i < s.len()
        invariant
            i <= s.len(),
            amp@ == "&amp;"@,
            lt@ == "&lt;"@,
            gt@ == "&gt;"@,
            quot@ == "&quot;"@,
            apos@ == "&apos;"@,
            amp@.len() == 5,
            lt@.len() == 4,
            gt@.len() == 4,
            quot@.len() == 6,
            apos@.len() == 6,
            unescape(s@) == out@ + unescape(s@.skip(i as int)),
        decreases s.len() - i,
    {
        let ghost rest = s@.skip(i as int);
        if prefix_at(s, i, &amp) {
            out.push('&');
            assert(rest.skip(5) =~= s@.skip(i + 5));
            i = i + 5;
        } else if prefix_at(s, i, &lt) {
            out.push('<');
            assert(rest.skip(4) =~= s@.skip(i + 4));
            i = i + 4;
        } else if prefix_at(s, i, &gt) {
            out.push('>');
            assert(rest.skip(4) =~= s@.skip(i + 4));
            i = i + 4;
        } else if prefix_at(s, i, &quot) {
            out.push('"');
            assert(rest.skip(6) =~= s@.skip(i + 6));
            i = i + 6;
        } else if prefix_at(s, i, &apos) {
            out.push('\'');
            assert(rest.skip(6) =~= s@.skip(i + 6));
            i = i + 6;
        } else {
            out.push(s[i]);
            assert(rest.drop_first() =~= s@.skip(i + 1));
            assert(rest[0] == s@[i as int]);
            i = i + 1;
        }
    }
    assert(s@.skip(s.len() as int) =~= seq![]);
    out
}

// ---------------------------------------------------------------------------
// Writing the two documents
// ---------------------------------------------------------------------------

/// Each string as a sequence of characters.
pub open spec fn strings_view(s: Seq<String>) -> Seq<Seq<char>> {
    s.map_values(|b: String| b@)
}

/// The parts one after another.
pub open spec fn joined(parts: Seq<Seq<char>>) -> Seq<char>
    decreases parts.len(),
{
    if parts.len() == 0 {
        seq![]
    } else {
        joined(parts.drop_last()) + parts.last()
    }
}

/// The declaration both documents open with.
pub open spec fn declaration() -> Seq<char> {
    "<?xml version=\"1.0\" encoding=\"utf-8\"?>"@
}

/// One blob of a listing.
pub open spec fn blob_entry(name: Seq<char>) -> Seq<char> {
    "<Blob><Name>"@ + escape(name) + "</Name><Properties /></Blob>"@
}

/// An `EnumerationResults` naming `blobs` under `prefix` in `container`.
pub open spec fn listing_of(container: Seq<char>, prefix: Seq<char>, blobs: Seq<Seq<char>>) -> Seq<
    char,
> {
    declaration() + "<EnumerationResults ContainerName=\""@ + escape(container) + "\"><Prefix>"@
        + escape(prefix) + "</Prefix><Blobs>"@ + joined(entries_of(blobs))
        + "</Blobs><NextMarker /></EnumerationResults>"@
}

/// The entries of a listing, one per blob.
pub open spec fn entries_of(blobs: Seq<Seq<char>>) -> Seq<Seq<char>> {
    blobs.map_values(|b: Seq<char>| blob_entry(b))
}

/// An `Error` naming `code`, with `message`.
pub open spec fn error_of(code: Seq<char>, message: Seq<char>) -> Seq<char> {
    declaration() + "<Error><Code>"@ + escape(code) + "</Code><Message>"@ + escape(message)
        + "</Message></Error>"@
}

/// An `EnumerationResults` naming `blobs` under `prefix` in `container`.
pub fn listing(container: &str, prefix: &str, blobs: &[String]) -> (r: String)
    ensures
        r@ == listing_of(container@, prefix@, strings_view(blobs@)),
{
    let mut out: Vec<char> = Vec::new();
    extend_str(&mut out, "<?xml version=\"1.0\" encoding=\"utf-8\"?>");
    extend_str(&mut out, "<EnumerationResults ContainerName=\"");
    extend_escaped(&mut out, container);
    extend_str(&mut out, "\"><Prefix>");
    extend_escaped(&mut out, prefix);
    extend_str(&mut out, "</Prefix><Blobs>");
    let ghost head = out@;
    let ghost entries = entries_of(strings_view(blobs@));
    let mut i: usize = 0;
    assert(entries.take(0) =~= seq![]);
    while i < blobs.len()
        invariant
            i <= blobs.len(),
            entries == entries_of(strings_view(blobs@)),
            out@ == head + joined(entries.take(i as int)),
        decreases blobs.len() - i,
    {
        extend_str(&mut out, "<Blob><Name>");
        extend_escaped(&mut out, blobs[i].as_str());
        extend_str(&mut out, "</Name><Properties /></Blob>");
        proof {
            assert(entries.take(i + 1).drop_last() =~= entries.take(i as int));
            assert(entries[i as int] == blob_entry(blobs@[i as int]@));
        }
        i = i + 1;
    }
    assert(entries.take(blobs.len() as int) =~= entries);
    extend_str(&mut out, "</Blobs><NextMarker /></EnumerationResults>");
    string_of(&out)
}

/// An `Error` naming `code`.
pub fn error(code: &str, message: &str) -> (r: String)
    ensures
        r@ == error_of(code@, message@),
{
    let mut out: Vec<char> = Vec::new();
    extend_str(&mut out, "<?xml version=\"1.0\" encoding=\"utf-8\"?>");
    extend_str(&mut out, "<Error><Code>");
    extend_escaped(&mut out, code);
    extend_str(&mut out, "</Code><Message>");
    extend_escaped(&mut out, message);
    extend_str(&mut out, "</Message></Error>");
    string_of(&out)
}

// ---------------------------------------------------------------------------
// Reading texts back
// ---------------------------------------------------------------------------

/// Whether `needle` stands in `hay` at `i`.
pub open spec fn occurs_at(hay: Seq<char>, needle: Seq<char>, i: int) -> bool {
    0 <= i <= hay.len() && has_prefix(hay.skip(i), needle)
}

/// The first place at or after `i` where `needle` stands in `hay`.
pub open spec fn find_from(hay: Seq<char>, needle: Seq<char>, i: int) -> Option<int>
    decreases hay.len() - i,
{
    if i < 0 {
        None
    } else if occurs_at(hay, needle, i) {
        Some(i)
    } else if i + needle.len() >= hay.len() {
        None
    } else {
        find_from(hay, needle, i + 1)
    }
}

/// Where `find_from` finds anything, it is a place at or after `i` where
/// the needle stands.
pub proof fn lemma_find_from_found(hay: Seq<char>, needle: Seq<char>, i: int)
    ensures
        find_from(hay, needle, i) matches Some(k) ==> i <= k && occurs_at(hay, needle, k) && k
            + needle.len() <= hay.len(),
    decreases hay.len() - i,
{
    if i >= 0 && !occurs_at(hay, needle, i) && i + needle.len() < hay.len() {
        lemma_find_from_found(hay, needle, i + 1);
    }
}

/// `<name>`.
pub open spec fn open_tag(name: Seq<char>) -> Seq<char> {
    seq!['<'] + name + seq!['>']
}

/// `</name>`.
pub open spec fn close_tag(name: Seq<char>) -> Seq<char> {
    seq!['<', '/'] + name + seq!['>']
}

/// The text of the next element named `name` at or after `pos`, and where
/// the scan goes on: the first `<name>` from `pos`, up to the first
/// `</name>` after it, entities written back.
pub open spec fn next_text(doc: Seq<char>, name: Seq<char>, pos: int) -> Option<(Seq<char>, int)> {
    match find_from(doc, open_tag(name), pos) {
        None => None,
        Some(i) => {
            let start = i + open_tag(name).len();
            match find_from(doc, close_tag(name), start) {
                None => None,
                Some(j) => Some((unescape(doc.subrange(start, j)), j + close_tag(name).len())),
            }
        },
    }
}

/// Where the scan goes on lies past `pos`, within the document.
pub proof fn lemma_next_text_advances(doc: Seq<char>, name: Seq<char>, pos: int)
    ensures
        next_text(doc, name, pos) matches Some(t) ==> pos < t.1 <= doc.len(),
{
    lemma_find_from_found(doc, open_tag(name), pos);
    if let Some(i) = find_from(doc, open_tag(name), pos) {
        lemma_find_from_found(doc, close_tag(name), i + open_tag(name).len());
    }
}

/// The text of every element named `name` from `pos` on, in order.
pub open spec fn texts_from(doc: Seq<char>, name: Seq<char>, pos: int) -> Seq<Seq<char>>
    decreases doc.len() - pos,
{
    match next_text(doc, name, pos) {
        None => seq![],
        Some(t) => {
            proof {
                lemma_next_text_advances(doc, name, pos);
            }
            seq![t.0] + texts_from(doc, name, t.1)
        },
    }
}

/// The text of every element named `name` in `doc`, in order.
pub open spec fn texts_of(doc: Seq<char>, name: Seq<char>) -> Seq<Seq<char>> {
    texts_from(doc, name, 0)
}

/// The text of the first element named `name` in `doc`.
pub open spec fn first_of(doc: Seq<char>, name: Seq<char>) -> Option<Seq<char>> {
    match next_text(doc, name, 0) {
        Some(t) => Some(t.0),
        None => None,
    }
}

/// The first place at or after `from` where `needle` stands in `hay`.
pub fn find_in(hay: &Vec<char>, needle: &Vec<char>, from: usize) -> (r: Option<usize>)
    requires
        from <= hay.len(),
    ensures
        match r {
            Some(k) => find_from(hay@, needle@, from as int) == Some(k as int),
            None => find_from(hay@, needle@, from as int) is None,
        },
{
    let mut i: usize = from;
    while i <= hay.len()
        invariant
            from <= i <= hay.len() + 1,
            find_from(hay@, needle@, from as int) == find_from(hay@, needle@, i as int),
        decreases hay.len() + 1 - i,
    {
        if prefix_at(hay, i, needle) {
            return Some(i);
        }
        if needle.len() >= hay.len() - i {
            return None;
        }
        i = i + 1;
    }
    None
}

/// The next text from `pos`, and where the scan goes on.
fn next_text_at(doc: &Vec<char>, name: &Vec<char>, pos: usize) -> (r: Option<(Vec<char>, usize)>)
    requires
        pos <= doc.len(),
    ensures
        match r {
            Some(t) => next_text(doc@, name@, pos as int) == Some((t.0@, t.1 as int)) && t.1
                <= doc.len(),
            None => next_text(doc@, name@, pos as int) is None,
        },
{
    let mut open: Vec<char> = Vec::new();
    open.push('<');
    extend_chars(&mut open, name);
    open.push('>');
    let mut close: Vec<char> = Vec::new();
    close.push('<');
    close.push('/');
    extend_chars(&mut close, name);
    close.push('>');
    assert(open@ =~= open_tag(name@));
    assert(close@ =~= close_tag(name@));
    match find_in(doc, &open, pos) {
        None => None,
        Some(i) => {
            proof {
                lemma_find_from_found(doc@, open@, pos as int);
            }
            let start = i + open.len();
            match find_in(doc, &close, start) {
                None => None,
                Some(j) => {
                    proof {
                        lemma_find_from_found(doc@, close@, start as int);
                    }
                    let mut inner: Vec<char> = Vec::new();
                    let mut k: usize = start;
                    while k < j
                        invariant
                            start <= k <= j,
                            j <= doc.len(),
                            inner@ == doc@.subrange(start as int, k as int),
                        decreases j - k,
                    {
                        inner.push(doc[k]);
                        assert(doc@.subrange(start as int, k + 1) =~= doc@.subrange(
                            start as int,
                            k as int,
                        ).push(doc@[k as int]));
                        k = k + 1;
                    }
                    Some((unescaped(&inner), j + close.len()))
                },
            }
        },
    }
}

/// The text of every element named `name` in `xml`, in order, entities
/// written back. An element that is opened and never closed ends the scan.
pub fn texts(xml: &str, name: &str) -> (r: Vec<String>)
    ensures
        strings_view(r@) == texts_of(xml@, name@),
{
    let doc = chars_of(xml);
    let wanted = chars_of(name);
    let mut found: Vec<String> = Vec::new();
    let mut pos: usize = 0;
    loop
        invariant
            pos <= doc.len(),
            doc@ == xml@,
            wanted@ == name@,
            texts_of(xml@, name@) == strings_view(found@) + texts_from(doc@, wanted@, pos as int),
        decreases doc.len() - pos,
    {
        match next_text_at(&doc, &wanted, pos) {
            None => {
                assert(texts_from(doc@, wanted@, pos as int) =~= seq![]);
                assert(strings_view(found@) + seq![] =~= strings_view(found@));
                return found;
            },
            Some(t) => {
                proof {
                    lemma_next_text_advances(doc@, wanted@, pos as int);
                }
                let ghost before = found@;
                let text = string_of(&t.0);
                found.push(text);
                proof {
                    assert(strings_view(found@) =~= strings_view(before).push(t.0@));
                    assert(strings_view(found@) + texts_from(doc@, wanted@, t.1 as int)
                        =~= strings_view(before) + (seq![t.0@] + texts_from(
                        doc@,
                        wanted@,
                        t.1 as int,
                    )));
                }
                pos = t.1;
            },
        }
    }
}

/// The text of the first element named `name` in `xml`, entities written
/// back.
pub fn first(xml: &str, name: &str) -> (r: Option<String>)
    ensures
        match r {
            Some(s) => first_of(xml@, name@) == Some(s@),
            None => first_of(xml@, name@) is None,
        },
{
    let doc = chars_of(xml);
    let wanted = chars_of(name);
    match next_text_at(&doc, &wanted, 0) {
        Some(t) => Some(string_of(&t.0)),
        None => None,
    }
}

// ---------------------------------------------------------------------------
// What is written reads back
// ---------------------------------------------------------------------------

/// Writing entities back undoes writing them: any text, escaped and then
/// unescaped, is the text again.
pub proof fn law_unescape_undoes_escape(s: Seq<char>)
    ensures
        unescape(escape(s)) == s,
    decreases s.len(),
{
    reveal_strlit("&amp;");
    reveal_strlit("&lt;");
    reveal_strlit("&gt;");
    reveal_strlit("&quot;");
    reveal_strlit("&apos;");
    if s.len() > 0 {
        let c = s[0];
        let rest = escape(s.drop_first());
        let e = escape_char(c);
        law_unescape_undoes_escape(s.drop_first());
        let whole = e + rest;
        assert(escape(s) == whole);
        assert(whole.take(e.len() as int) =~= e);
        assert(whole.skip(e.len() as int) =~= rest);
        assert(whole[0] == e[0]);
        if e.len() > 2 {
            assert(whole[1] == e[1]);
            assert(whole[2] == e[2]);
        }
        if has_prefix(whole, "&amp;"@) {
            lemma_prefix_char(whole, "&amp;"@, 0);
            lemma_prefix_char(whole, "&amp;"@, 1);
            lemma_prefix_char(whole, "&amp;"@, 2);
        }
        if has_prefix(whole, "&lt;"@) {
            lemma_prefix_char(whole, "&lt;"@, 0);
            lemma_prefix_char(whole, "&lt;"@, 1);
        }
        if has_prefix(whole, "&gt;"@) {
            lemma_prefix_char(whole, "&gt;"@, 0);
            lemma_prefix_char(whole, "&gt;"@, 1);
        }
        if has_prefix(whole, "&quot;"@) {
            lemma_prefix_char(whole, "&quot;"@, 0);
            lemma_prefix_char(whole, "&quot;"@, 1);
        }
        if has_prefix(whole, "&apos;"@) {
            lemma_prefix_char(whole, "&apos;"@, 0);
            lemma_prefix_char(whole, "&apos;"@, 1);
        }
        if c != '&' && c != '<' && c != '>' && c != '"' && c != '\'' {
            assert(whole.drop_first() =~= rest);
        }
        assert(seq![c] + s.drop_first() =~= s);
    }
}

/// What begins with a prefix has its characters.
proof fn lemma_prefix_char(s: Seq<char>, p: Seq<char>, i: int)
    requires
        has_prefix(s, p),
        0 <= i < p.len(),
    ensures
        s[i] == p[i],
{
    assert(s.take(p.len() as int)[i] == s[i]);
}

/// Escaped text holds no `<`, so no tag can start inside it.
proof fn lemma_escape_has_no_lt(s: Seq<char>)
    ensures
        forall|k: int| 0 <= k < escape(s).len() ==> escape(s)[k] != '<',
    decreases s.len(),
{
    reveal_strlit("&amp;");
    reveal_strlit("&lt;");
    reveal_strlit("&gt;");
    reveal_strlit("&quot;");
    reveal_strlit("&apos;");
    if s.len() > 0 {
        lemma_escape_has_no_lt(s.drop_first());
        let e = escape_char(s[0]);
        let rest = escape(s.drop_first());
        assert forall|k: int| 0 <= k < (e + rest).len() implies (e + rest)[k] != '<' by {
            if k >= e.len() {
                assert((e + rest)[k] == rest[k - e.len()]);
            } else {
                assert((e + rest)[k] == e[k]);
            }
        }
    }
}

/// Whether, from `k` on, every `<` in `seg` is followed within `seg` by two
/// characters of which one differs from `n1`, `n2` in turn: no tag whose
/// second and third characters are `n1` and `n2` starts there.
pub open spec fn clear_from(seg: Seq<char>, n1: char, n2: char, k: int) -> bool
    decreases seg.len() - k,
{
    if k < 0 || k >= seg.len() {
        true
    } else {
        (seg[k] != '<' || (k + 2 < seg.len() && (seg[k + 1] != n1 || seg[k + 2] != n2)))
            && clear_from(seg, n1, n2, k + 1)
    }
}

proof fn lemma_clear_at(seg: Seq<char>, n1: char, n2: char, k: int, m: int)
    requires
        clear_from(seg, n1, n2, k),
        0 <= k <= m < seg.len(),
    ensures
        seg[m] != '<' || (m + 2 < seg.len() && (seg[m + 1] != n1 || seg[m + 2] != n2)),
    decreases m - k,
{
    if k < m {
        lemma_clear_at(seg, n1, n2, k + 1, m);
    }
}

/// A tag starting `<` cannot stand anywhere inside a clear stretch.
proof fn lemma_none_in_clear(a: Seq<char>, s: Seq<char>, b: Seq<char>, n: Seq<char>)
    requires
        n.len() >= 3,
        n[0] == '<',
        clear_from(s, n[1], n[2], 0),
    ensures
        forall|k: int| a.len() <= k < a.len() + s.len() ==> !occurs_at(a + s + b, n, k),
{
    let doc = a + s + b;
    assert forall|k: int| a.len() <= k < a.len() + s.len() implies !occurs_at(doc, n, k) by {
        let m = k - a.len();
        lemma_clear_at(s, n[1], n[2], 0, m);
        if occurs_at(doc, n, k) {
            let w = doc.skip(k).take(n.len() as int);
            assert(w == n);
            assert(w[0] == doc[k]);
            assert(doc[k] == s[m]);
            assert(w[1] == doc[k + 1]);
            assert(w[2] == doc[k + 2]);
            assert(doc[k + 1] == s[m + 1]);
            assert(doc[k + 2] == s[m + 2]);
        }
    }
}

/// A tag starting `<` cannot stand anywhere inside a stretch with no `<`.
proof fn lemma_none_without_lt(a: Seq<char>, s: Seq<char>, b: Seq<char>, n: Seq<char>)
    requires
        n.len() >= 1,
        n[0] == '<',
        forall|k: int| 0 <= k < s.len() ==> s[k] != '<',
    ensures
        forall|k: int| a.len() <= k < a.len() + s.len() ==> !occurs_at(a + s + b, n, k),
{
    let doc = a + s + b;
    assert forall|k: int| a.len() <= k < a.len() + s.len() implies !occurs_at(doc, n, k) by {
        if occurs_at(doc, n, k) {
            let w = doc.skip(k).take(n.len() as int);
            assert(w[0] == doc[k]);
            assert(doc[k] == s[k - a.len()]);
        }
    }
}

/// A needle stands where it was put.
pub proof fn lemma_occurs(a: Seq<char>, n: Seq<char>, b: Seq<char>)
    ensures
        occurs_at(a + n + b, n, a.len() as int),
        find_from(a + n + b, n, a.len() as int) == Some(a.len() as int),
{
    assert((a + n + b).skip(a.len() as int).take(n.len() as int) =~= n);
}

/// Searching from `i` finds what searching from `j` finds where nothing
/// stands in between.
pub proof fn lemma_find_skip(hay: Seq<char>, n: Seq<char>, i: int, j: int)
    requires
        0 <= i <= j <= hay.len(),
        n.len() > 0,
        forall|k: int| i <= k < j ==> !occurs_at(hay, n, k),
    ensures
        find_from(hay, n, i) == find_from(hay, n, j),
    decreases j - i,
{
    if i < j {
        if i + n.len() >= hay.len() {
            assert(!occurs_at(hay, n, j));
        } else {
            lemma_find_skip(hay, n, i + 1, j);
        }
    }
}

/// Nothing stands at the very end.
pub proof fn lemma_find_at_end(hay: Seq<char>, n: Seq<char>)
    requires
        n.len() > 0,
    ensures
        find_from(hay, n, hay.len() as int) is None,
{
}

/// The parts one after another, split anywhere.
proof fn lemma_joined_append(x: Seq<Seq<char>>, y: Seq<Seq<char>>)
    ensures
        joined(x + y) == joined(x) + joined(y),
    decreases y.len(),
{
    if y.len() == 0 {
        assert(x + y =~= x);
        assert(joined(x) + joined(y) =~= joined(x));
    } else {
        assert((x + y).drop_last() =~= x + y.drop_last());
        lemma_joined_append(x, y.drop_last());
    }
}

/// The `k`th part follows the parts before it.
proof fn lemma_joined_next(s: Seq<Seq<char>>, k: int)
    requires
        0 <= k < s.len(),
    ensures
        joined(s.take(k + 1)) == joined(s.take(k)) + s[k],
{
    assert(s.take(k + 1).drop_last() =~= s.take(k));
}

/// The parts before `k`, then the rest.
proof fn lemma_joined_split(s: Seq<Seq<char>>, k: int)
    requires
        0 <= k <= s.len(),
    ensures
        joined(s) == joined(s.take(k)) + joined(s.skip(k)),
{
    assert(s =~= s.take(k) + s.skip(k));
    lemma_joined_append(s.take(k), s.skip(k));
}

/// An error names its code: the first `Code` an error document holds is
/// the code it was written with.
pub proof fn law_error_names_its_code(code: Seq<char>, message: Seq<char>)
    ensures
        first_of(error_of(code, message), "Code"@) == Some(code),
{
    reveal_strlit("Code");
    reveal_strlit("<Error><Code>");
    reveal_strlit("<Error>");
    reveal_strlit("<Code>");
    reveal_strlit("</Code><Message>");
    reveal_strlit("</Code>");
    reveal_strlit("<Message>");
    reveal_strlit("<?xml version=\"1.0\" encoding=\"utf-8\"?>");
    reveal_with_fuel(clear_from, 45);
    let d = declaration();
    let l = "<Error>"@;
    let o = "<Code>"@;
    let x = escape(code);
    let c = "</Code>"@;
    let tail = "<Message>"@ + escape(message) + "</Message></Error>"@;
    let doc = error_of(code, message);
    assert("<Error><Code>"@ =~= l + o);
    assert("</Code><Message>"@ =~= c + "<Message>"@);
    assert(doc =~= d + l + o + x + c + tail);
    let n = open_tag("Code"@);
    let m = close_tag("Code"@);
    assert(n =~= o);
    assert(m =~= c);
    assert(clear_from(d, 'C', 'o', 0));
    assert(clear_from(l, 'C', 'o', 0));
    lemma_none_in_clear(seq![], d, l + o + x + c + tail, n);
    assert(doc =~= seq![] + d + (l + o + x + c + tail));
    lemma_none_in_clear(d, l, o + x + c + tail, n);
    assert(doc =~= d + l + (o + x + c + tail));
    lemma_find_skip(doc, n, 0, (d.len() + l.len()) as int);
    lemma_occurs(d + l, n, x + c + tail);
    assert(doc =~= (d + l) + n + (x + c + tail));
    let start: int = (d.len() + l.len() + o.len()) as int;
    lemma_escape_has_no_lt(code);
    lemma_none_without_lt(d + l + o, x, c + tail, m);
    assert(doc =~= (d + l + o) + x + (c + tail));
    lemma_find_skip(doc, m, start, start + x.len());
    lemma_occurs(d + l + o + x, m, tail);
    assert(doc =~= (d + l + o + x) + m + tail);
    assert(doc.subrange(start, start + x.len()) =~= x);
    law_unescape_undoes_escape(code);
}

/// The fixed pieces of a listing open no `Name` element.
proof fn lemma_listing_pieces_clear()
    ensures
        clear_from("<Blob>"@, 'N', 'a', 0),
        clear_from("<Properties /></Blob>"@, 'N', 'a', 0),
        clear_from("</Blobs><NextMarker /></EnumerationResults>"@, 'N', 'a', 0),
        clear_from(declaration(), 'N', 'a', 0),
        clear_from("<EnumerationResults ContainerName=\""@, 'N', 'a', 0),
        clear_from("\"><Prefix>"@, 'N', 'a', 0),
        clear_from("</Prefix><Blobs>"@, 'N', 'a', 0),
{
    reveal_strlit("<Blob>");
    reveal_strlit("<Properties /></Blob>");
    reveal_strlit("</Blobs><NextMarker /></EnumerationResults>");
    reveal_strlit("<?xml version=\"1.0\" encoding=\"utf-8\"?>");
    reveal_strlit("<EnumerationResults ContainerName=\"");
    reveal_strlit("\"><Prefix>");
    reveal_strlit("</Prefix><Blobs>");
    reveal_with_fuel(clear_from, 50);
}

/// One part alone is that part.
proof fn lemma_joined_single(e: Seq<char>)
    ensures
        joined(seq![e]) == e,
{
    let s = seq![e];
    let empty = Seq::<Seq<char>>::empty();
    assert(s.len() == 1);
    assert(s.drop_last() =~= empty);
    assert(s.last() == e);
    assert(joined(empty) == Seq::<char>::empty());
    assert(joined(s) == joined(s.drop_last()) + s.last());
    assert(Seq::<char>::empty() + e =~= e);
}

/// A blob's entry is its pieces.
proof fn lemma_entry_pieces(b: Seq<char>)
    ensures
        blob_entry(b) == "<Blob>"@ + open_tag("Name"@) + escape(b) + close_tag("Name"@)
            + "<Properties /></Blob>"@,
        "<Blob>"@.len() == 6,
        open_tag("Name"@).len() == 6,
        close_tag("Name"@).len() == 7,
        "<Properties /></Blob>"@.len() == 21,
        open_tag("Name"@)[0] == '<',
        close_tag("Name"@)[0] == '<',
        open_tag("Name"@)[1] == 'N',
        open_tag("Name"@)[2] == 'a',
{
    reveal_strlit("Name");
    reveal_strlit("<Blob><Name>");
    reveal_strlit("<Blob>");
    reveal_strlit("</Name><Properties /></Blob>");
    reveal_strlit("<Properties /></Blob>");
    assert("<Blob><Name>"@ =~= "<Blob>"@ + open_tag("Name"@));
    assert("</Name><Properties /></Blob>"@ =~= close_tag("Name"@) + "<Properties /></Blob>"@);
    assert(blob_entry(b) =~= "<Blob>"@ + open_tag("Name"@) + escape(b) + close_tag("Name"@)
        + "<Properties /></Blob>"@);
}

/// Read from the start of a blob's entry, the scan gives the blob's name,
/// and goes on as from the end of the entry.
proof fn lemma_entry_step(pre: Seq<char>, b: Seq<char>, post: Seq<char>)
    ensures
        next_text(pre + blob_entry(b) + post, "Name"@, pre.len() as int) matches Some(r) && r.0
            == b && find_from(pre + blob_entry(b) + post, open_tag("Name"@), r.1) == find_from(
            pre + blob_entry(b) + post,
            open_tag("Name"@),
            (pre.len() + blob_entry(b).len()) as int,
        ),
{
    lemma_entry_pieces(b);
    lemma_listing_pieces_clear();
    let n = open_tag("Name"@);
    let m = close_tag("Name"@);
    let blob_tag = "<Blob>"@;
    let props = "<Properties /></Blob>"@;
    let x = escape(b);
    let doc = pre + blob_entry(b) + post;
    let pk = pre.len() as int;
    assert(doc =~= pre + blob_tag + (n + x + m + props + post));
    lemma_none_in_clear(pre, blob_tag, n + x + m + props + post, n);
    lemma_find_skip(doc, n, pk, pk + 6);
    assert(doc =~= (pre + blob_tag) + n + (x + m + props + post));
    lemma_occurs(pre + blob_tag, n, x + m + props + post);
    let start: int = pk + 12;
    lemma_escape_has_no_lt(b);
    assert(doc =~= (pre + blob_tag + n) + x + (m + props + post));
    lemma_none_without_lt(pre + blob_tag + n, x, m + props + post, m);
    lemma_find_skip(doc, m, start, start + x.len());
    assert(doc =~= (pre + blob_tag + n + x) + m + (props + post));
    lemma_occurs(pre + blob_tag + n + x, m, props + post);
    assert(doc.subrange(start, start + x.len()) =~= x);
    law_unescape_undoes_escape(b);
    let next: int = start + x.len() + 7;
    assert(next_text(doc, "Name"@, pk) == Some((b, next)));
    assert(doc =~= (pre + blob_tag + n + x + m) + props + post);
    lemma_none_in_clear(pre + blob_tag + n + x + m, props, post, n);
    lemma_find_skip(doc, n, next, next + 21);
}

/// From the start of the `k`th entry of a listing on, the scan reads the
/// names of the `k`th blob and those after it, whatever comes before the
/// entries, as long as nothing after them opens a `Name`.
proof fn lemma_entries_read_back(h: Seq<char>, names: Seq<Seq<char>>, t: Seq<char>, k: int)
    requires
        0 <= k <= names.len(),
        clear_from(t, 'N', 'a', 0),
    ensures
        texts_from(
            h + joined(entries_of(names)) + t,
            "Name"@,
            (h.len() + joined(entries_of(names).take(k)).len()) as int,
        ) == names.skip(k),
    decreases names.len() - k,
{
    let es = entries_of(names);
    let doc = h + joined(es) + t;
    let name = "Name"@;
    let n = open_tag(name);
    lemma_entry_pieces(seq![]);
    let pk: int = (h.len() + joined(es.take(k)).len()) as int;
    lemma_joined_split(es, k);
    if k == names.len() {
        assert(es.skip(k) =~= seq![]);
        assert(joined(es.skip(k)) =~= seq![]);
        assert(doc =~= (h + joined(es.take(k))) + t + seq![]);
        lemma_none_in_clear(h + joined(es.take(k)), t, seq![], n);
        lemma_find_skip(doc, n, pk, doc.len() as int);
        lemma_find_at_end(doc, n);
        assert(names.skip(k) =~= seq![]);
    } else {
        let b = names[k];
        let e = es[k];
        assert(e == blob_entry(b));
        assert(es.skip(k) =~= seq![e] + es.skip(k + 1));
        lemma_joined_append(seq![e], es.skip(k + 1));
        lemma_joined_single(e);
        let pre = h + joined(es.take(k));
        let post = joined(es.skip(k + 1)) + t;
        assert(doc =~= pre + blob_entry(b) + post);
        lemma_entry_step(pre, b, post);
        lemma_joined_next(es, k);
        let pk1: int = (h.len() + joined(es.take(k + 1)).len()) as int;
        assert(pk1 == pre.len() + blob_entry(b).len());
        let r = next_text(doc, name, pk).unwrap();
        assert(next_text(doc, name, r.1) == next_text(doc, name, pk1));
        assert(texts_from(doc, name, r.1) == texts_from(doc, name, pk1));
        lemma_entries_read_back(h, names, t, k + 1);
        assert(names.skip(k) =~= seq![b] + names.skip(k + 1));
    }
}

/// A listing names its blobs back: scanning a listing for `Name` gives the
/// blob names it was written with, in order, entities and all.
pub proof fn law_listing_names_its_blobs_back(
    container: Seq<char>,
    prefix: Seq<char>,
    names: Seq<Seq<char>>,
)
    ensures
        texts_of(listing_of(container, prefix, names), "Name"@) == names,
{
    reveal_strlit("Name");
    reveal_strlit("<?xml version=\"1.0\" encoding=\"utf-8\"?>");
    reveal_strlit("<EnumerationResults ContainerName=\"");
    reveal_strlit("\"><Prefix>");
    reveal_strlit("</Prefix><Blobs>");
    reveal_strlit("</Blobs><NextMarker /></EnumerationResults>");
    lemma_listing_pieces_clear();
    lemma_entry_pieces(seq![]);
    let d = declaration();
    let l1 = "<EnumerationResults ContainerName=\""@;
    let ec = escape(container);
    let l2 = "\"><Prefix>"@;
    let ep = escape(prefix);
    let l3 = "</Prefix><Blobs>"@;
    let t = "</Blobs><NextMarker /></EnumerationResults>"@;
    let j = joined(entries_of(names));
    let h = d + l1 + ec + l2 + ep + l3;
    let doc = listing_of(container, prefix, names);
    assert(doc =~= h + j + t);
    let n = open_tag("Name"@);
    lemma_escape_has_no_lt(container);
    lemma_escape_has_no_lt(prefix);
    let rest = j + t;
    lemma_none_in_clear(seq![], d, l1 + ec + l2 + ep + l3 + rest, n);
    assert(doc =~= seq![] + d + (l1 + ec + l2 + ep + l3 + rest));
    lemma_none_in_clear(d, l1, ec + l2 + ep + l3 + rest, n);
    assert(doc =~= d + l1 + (ec + l2 + ep + l3 + rest));
    lemma_none_without_lt(d + l1, ec, l2 + ep + l3 + rest, n);
    assert(doc =~= (d + l1) + ec + (l2 + ep + l3 + rest));
    lemma_none_in_clear(d + l1 + ec, l2, ep + l3 + rest, n);
    assert(doc =~= (d + l1 + ec) + l2 + (ep + l3 + rest));
    lemma_none_without_lt(d + l1 + ec + l2, ep, l3 + rest, n);
    assert(doc =~= (d + l1 + ec + l2) + ep + (l3 + rest));
    lemma_none_in_clear(d + l1 + ec + l2 + ep, l3, rest, n);
    assert(doc =~= (d + l1 + ec + l2 + ep) + l3 + rest);
    lemma_find_skip(doc, n, 0, h.len() as int);
    assert(entries_of(names).take(0) =~= seq![]);
    assert(joined(entries_of(names).take(0)) =~= seq![]);
    lemma_entries_read_back(h, names, t, 0);
    assert(next_text(doc, "Name"@, 0) == next_text(doc, "Name"@, h.len() as int));
    assert(names.skip(0) =~= names);
}

/// A listing names its prefix back: the first `Prefix` a listing holds is
/// the prefix it was written with, entities and all.
pub proof fn law_listing_names_its_prefix_back(
    container: Seq<char>,
    prefix: Seq<char>,
    names: Seq<Seq<char>>,
)
    ensures
        first_of(listing_of(container, prefix, names), "Prefix"@) == Some(prefix),
{
    reveal_strlit("Prefix");
    reveal_strlit("<?xml version=\"1.0\" encoding=\"utf-8\"?>");
    reveal_strlit("<EnumerationResults ContainerName=\"");
    reveal_strlit("\"><Prefix>");
    reveal_strlit("</Prefix><Blobs>");
    reveal_strlit("\">");
    reveal_strlit("<Blobs>");
    reveal_with_fuel(clear_from, 45);
    let d = declaration();
    let l1 = "<EnumerationResults ContainerName=\""@;
    let ec = escape(container);
    let q = "\">"@;
    let n = open_tag("Prefix"@);
    let ep = escape(prefix);
    let m = close_tag("Prefix"@);
    let tail = "<Blobs>"@ + joined(entries_of(names)) + "</Blobs><NextMarker /></EnumerationResults>"@;
    let doc = listing_of(container, prefix, names);
    assert("\"><Prefix>"@ =~= q + n);
    assert("</Prefix><Blobs>"@ =~= m + "<Blobs>"@);
    assert(doc =~= d + l1 + ec + q + n + ep + m + tail);
    assert(clear_from(d, 'P', 'r', 0));
    assert(clear_from(l1, 'P', 'r', 0));
    assert(clear_from(q, 'P', 'r', 0));
    lemma_none_in_clear(seq![], d, l1 + ec + q + n + ep + m + tail, n);
    assert(doc =~= seq![] + d + (l1 + ec + q + n + ep + m + tail));
    lemma_none_in_clear(d, l1, ec + q + n + ep + m + tail, n);
    assert(doc =~= d + l1 + (ec + q + n + ep + m + tail));
    lemma_escape_has_no_lt(container);
    lemma_none_without_lt(d + l1, ec, q + n + ep + m + tail, n);
    assert(doc =~= (d + l1) + ec + (q + n + ep + m + tail));
    lemma_none_in_clear(d + l1 + ec, q, n + ep + m + tail, n);
    assert(doc =~= (d + l1 + ec) + q + (n + ep + m + tail));
    let at: int = (d.len() + l1.len() + ec.len() + q.len()) as int;
    lemma_find_skip(doc, n, 0, at);
    lemma_occurs(d + l1 + ec + q, n, ep + m + tail);
    assert(doc =~= (d + l1 + ec + q) + n + (ep + m + tail));
    let start: int = at + n.len();
    lemma_escape_has_no_lt(prefix);
    lemma_none_without_lt(d + l1 + ec + q + n, ep, m + tail, m);
    assert(doc =~= (d + l1 + ec + q + n) + ep + (m + tail));
    lemma_find_skip(doc, m, start, start + ep.len());
    lemma_occurs(d + l1 + ec + q + n + ep, m, tail);
    assert(doc =~= (d + l1 + ec + q + n + ep) + m + tail);
    assert(doc.subrange(start, start + ep.len()) =~= ep);
    law_unescape_undoes_escape(prefix);
}

} // verus!
