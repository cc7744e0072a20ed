//! The blog handlers' pure logic: metadata extracted from markdown
//! text, the JSON and HTML payloads built byte by byte, and the one
//! outside call — the markdown renderer — behind a trusted wrapper.
use vstd::prelude::*;
use crate::config::{spec_lines, strip_cr};
use crate::text::{
    byte_prefix_len, find_byte, find_first, find_sub, first_match_from, lemma_find_first,
    spec_trim, spec_trim_matches, str_bytes, trim, trim_matches_byte, trim_start_matches_byte,
};
use vstd::slice::{slice_subrange, slice_to_vec};
use vstd::string::StringSliceAdditionalSpecFns;

verus! {

/// What the markdown renderer returns for the given text: a function
/// of the text alone.
pub uninterp spec fn rendered_markdown(s: Seq<u8>) -> Seq<u8>;

/// Relies on pulldown_cmark's `Parser::new_ext` with all extensions
/// and `html::push_html`: the HTML produced depends on the markdown
/// text alone.
#[verifier::external_body]
pub fn render_markdown(content: &[u8]) -> (r: Vec<u8>)
    ensures
        r@ == rendered_markdown(content@),
{
    let text = String::from_utf8_lossy(content);
    let parser = pulldown_cmark::Parser::new_ext(&text, pulldown_cmark::Options::all());
    let mut html_output = String::new();
    pulldown_cmark::html::push_html(&mut html_output, parser);
    html_output.into_bytes()
}

/// One byte under JSON string escaping: quote, backslash and the
/// control characters are escaped exactly as serde_json writes them.
pub open spec fn spec_escape_byte(b: u8) -> Seq<u8> {
    if b == 34 {
        seq![92u8, 34u8]
    } else if b == 92 {
        seq![92u8, 92u8]
    } else if b == 8 {
        seq![92u8, 98u8]
    } else if b == 9 {
        seq![92u8, 116u8]
    } else if b == 10 {
        seq![92u8, 110u8]
    } else if b == 12 {
        seq![92u8, 102u8]
    } else if b == 13 {
        seq![92u8, 114u8]
    } else if b < 32 {
        seq![92u8, 117u8, 48u8, 48u8, spec_hex_digit(b / 16), spec_hex_digit(b % 16)]
    } else {
        seq![b]
    }
}

/// A lowercase hexadecimal digit.
pub open spec fn spec_hex_digit(n: u8) -> u8 {
    if n < 10 {
        (48 + n) as u8
    } else {
        (87 + n) as u8
    }
}

/// A byte string under JSON string escaping.
pub open spec fn spec_json_escape(s: Seq<u8>) -> Seq<u8>
    decreases s.len(),
{
    if s.len() == 0 {
        Seq::empty()
    } else {
        spec_escape_byte(s[0]) + spec_json_escape(s.drop_first())
    }
}

/// Escape a byte string for embedding in a JSON string literal.
pub fn json_escape(s: &[u8]) -> (r: Vec<u8>)
    ensures
        r@ == spec_json_escape(s@),
{
    let mut r: Vec<u8> = Vec::new();
    let mut i: usize = 0;
    proof {
        assert(s@.skip(0) =~= s@);
    }
    while i < s.len()
        invariant
            i <= s@.len(),
            spec_json_escape(s@) == r@ + spec_json_escape(s@.skip(i as int)),
        decreases s@.len() - i,
    {
        let ghost pre = r@;
        let b = s[i];
        if b == 34 {
            r.push(92);
            r.push(34);
        } else if b == 92 {
            r.push(92);
            r.push(92);
        } else if b == 8 {
            r.push(92);
            r.push(98);
        } else if b == 9 {
            r.push(92);
            r.push(116);
        } else if b == 10 {
            r.push(92);
            r.push(110);
        } else if b == 12 {
            r.push(92);
            r.push(102);
        } else if b == 13 {
            r.push(92);
            r.push(114);
        } else if b < 32 {
            r.push(92);
            r.push(117);
            r.push(48);
            r.push(48);
            let hi = b / 16;
            let lo = b % 16;
            r.push(if hi < 10 { 48 + hi } else { 87 + hi });
            r.push(if lo < 10 { 48 + lo } else { 87 + lo });
        } else {
            r.push(b);
        }
        proof {
            let t = s@.skip(i as int);
            assert(t[0] == s@[i as int]);
            assert(t.drop_first() =~= s@.skip(i + 1));
            assert(spec_json_escape(t) == spec_escape_byte(s@[i as int]) + spec_json_escape(
                s@.skip(i + 1),
            ));
            assert(r@ =~= pre + spec_escape_byte(s@[i as int]));
            assert(pre + spec_escape_byte(s@[i as int]) + spec_json_escape(s@.skip(i + 1)) =~= pre
                + (spec_escape_byte(s@[i as int]) + spec_json_escape(s@.skip(i + 1))));
        }
        i += 1;
    }
    proof {
        assert(s@.skip(s@.len() as int) =~= Seq::<u8>::empty());
        assert(r@ + Seq::<u8>::empty() =~= r@);
    }
    r
}

/// The escaped form grows by at most a factor of six (the longest
/// escape is `\u00XX`).
pub proof fn lemma_json_escape_len(s: Seq<u8>)
    ensures
        spec_json_escape(s).len() <= 6 * s.len(),
    decreases s.len(),
{
    if s.len() > 0 {
        lemma_json_escape_len(s.drop_first());
        assert(spec_escape_byte(s[0]).len() <= 6);
    }
}

/// The first non-empty line, if any.
pub open spec fn spec_first_nonempty(lines: Seq<Seq<u8>>) -> Option<Seq<u8>>
    decreases lines.len(),
{
    if lines.len() == 0 {
        None
    } else if lines[0].len() > 0 {
        Some(lines[0])
    } else {
        spec_first_nonempty(lines.drop_first())
    }
}

/// The title drawn from markdown text: its first non-empty line, or
/// the slug when there is none, with leading `#` marks and
/// surrounding whitespace removed.
pub open spec fn spec_blog_title(slug: Seq<u8>, content: Seq<u8>) -> Seq<u8> {
    let first = match spec_first_nonempty(spec_lines(content)) {
        Some(l) => l,
        None => slug,
    };
    spec_trim(first.skip(byte_prefix_len(first, 35)))
}

/// The date drawn from a line holding `Published:`: the text between
/// the first marker and the next (or the line's end), trimmed, with
/// surrounding `*` marks removed, trimmed again.
pub open spec fn spec_date_from_line(l: Seq<u8>) -> Seq<u8> {
    let i = first_match_from(l, "Published:".spec_bytes(), 0).unwrap();
    let seg_end = match first_match_from(l, "Published:".spec_bytes(), i + 10) {
        Some(j) => j,
        None => l.len() as int,
    };
    spec_trim(spec_trim_matches(spec_trim(l.subrange(i + 10, seg_end)), 42))
}

/// The published date drawn from markdown text: from the first line
/// holding a `Published:` marker, else `Unknown`.
pub open spec fn spec_date_scan(lines: Seq<Seq<u8>>) -> Seq<u8>
    decreases lines.len(),
{
    if lines.len() == 0 {
        "Unknown".spec_bytes()
    } else if first_match_from(lines[0], "Published:".spec_bytes(), 0) is Some {
        spec_date_from_line(lines[0])
    } else {
        spec_date_scan(lines.drop_first())
    }
}

pub open spec fn spec_blog_date(content: Seq<u8>) -> Seq<u8> {
    spec_date_scan(spec_lines(content))
}

/// The blog title of markdown text, with the slug as fallback.
pub fn blog_title(slug: &[u8], content: &[u8]) -> (r: Vec<u8>)
    ensures
        r@ == spec_blog_title(slug@, content@),
{
    let first: Vec<u8> = match first_nonempty_line(content) {
        Some(l) => l,
        None => slice_to_vec(slug),
    };
    let unhashed = trim_start_matches_byte(first.as_slice(), 35);
    slice_to_vec(trim(unhashed))
}

/// The first non-empty line of the text, if any.
fn first_nonempty_line(content: &[u8]) -> (r: Option<Vec<u8>>)
    ensures
        match r {
            Some(l) => spec_first_nonempty(spec_lines(content@)) == Some(l@),
            None => spec_first_nonempty(spec_lines(content@)) is None,
        },
{
    let mut pos: usize = 0;
    let total = content.len();
    proof {
        assert(total == content@.len());
        assert(content@.skip(0) =~= content@);
    }
    loop
        invariant
            pos <= content@.len(),
            content@.len() <= usize::MAX,
            spec_first_nonempty(spec_lines(content@)) == spec_first_nonempty(
                spec_lines(content@.skip(pos as int)),
            ),
        decreases content@.len() - pos,
    {
        if pos == content.len() {
            proof {
                assert(content@.skip(pos as int) =~= Seq::<u8>::empty());
            }
            return None;
        }
        let tail = slice_subrange(content, pos, content.len());
        proof {
            lemma_find_first(tail@, 10);
        }
        let (raw, next): (&[u8], usize) = match find_byte(tail, 10) {
            Some(i) => (slice_subrange(tail, 0, i), pos + i + 1),
            None => (tail, content.len()),
        };
        let line: &[u8] = if raw.len() > 0 && raw[raw.len() - 1] == 13 {
            let c = slice_subrange(raw, 0, raw.len() - 1);
            proof {
                assert(c@ =~= raw@.drop_last());
            }
            c
        } else {
            raw
        };
        proof {
            let s = content@.skip(pos as int);
            lemma_find_first(s, 10);
            match find_first(s, 10) {
                Some(i) => {
                    assert(raw@ =~= s.take(i));
                    assert(content@.skip(next as int) =~= s.skip(i + 1));
                    assert(spec_lines(s) == seq![strip_cr(s.take(i))] + spec_lines(s.skip(i + 1)));
                    assert(line@ == strip_cr(s.take(i)));
                    assert(spec_lines(s)[0] == line@);
                    assert(spec_lines(s).drop_first() =~= spec_lines(content@.skip(next as int)));
                },
                None => {
                    assert(raw@ =~= s);
                    assert(content@.skip(next as int) =~= Seq::<u8>::empty());
                    assert(spec_lines(s) == seq![strip_cr(s)]);
                    assert(spec_lines(s)[0] == line@);
                    assert(spec_lines(s).drop_first() =~= spec_lines(content@.skip(next as int)));
                },
            }
        }
        if line.len() > 0 {
            return Some(slice_to_vec(line));
        }
        pos = next;
    }
}

/// The published date of markdown text, `Unknown` when no line holds
/// a `Published:` marker.
pub fn blog_date(content: &[u8]) -> (r: Vec<u8>)
    ensures
        r@ == spec_blog_date(content@),
{
    let marker = str_bytes("Published:");
    let mut pos: usize = 0;
    let total = content.len();
    proof {
        reveal_strlit("Published:");
        crate::text::lemma_ascii_str_bytes("Published:");
        assert(total == content@.len());
        assert(content@.skip(0) =~= content@);
    }
    loop
        invariant
            pos <= content@.len(),
            content@.len() <= usize::MAX,
            marker@ == "Published:".spec_bytes(),
            marker@.len() == 10,
            spec_date_scan(spec_lines(content@)) == spec_date_scan(
                spec_lines(content@.skip(pos as int)),
            ),
        decreases content@.len() - pos,
    {
        if pos == content.len() {
            proof {
                assert(content@.skip(pos as int) =~= Seq::<u8>::empty());
            }
            return str_bytes("Unknown");
        }
        let tail = slice_subrange(content, pos, content.len());
        proof {
            lemma_find_first(tail@, 10);
        }
        let (raw, next): (&[u8], usize) = match find_byte(tail, 10) {
            Some(i) => (slice_subrange(tail, 0, i), pos + i + 1),
            None => (tail, content.len()),
        };
        let line: &[u8] = if raw.len() > 0 && raw[raw.len() - 1] == 13 {
            let c = slice_subrange(raw, 0, raw.len() - 1);
            proof {
                assert(c@ =~= raw@.drop_last());
            }
            c
        } else {
            raw
        };
        proof {
            let s = content@.skip(pos as int);
            lemma_find_first(s, 10);
            match find_first(s, 10) {
                Some(i) => {
                    assert(raw@ =~= s.take(i));
                    assert(content@.skip(next as int) =~= s.skip(i + 1));
                    assert(spec_lines(s) == seq![strip_cr(s.take(i))] + spec_lines(s.skip(i + 1)));
                    assert(line@ == strip_cr(s.take(i)));
                    assert(spec_lines(s)[0] == line@);
                    assert(spec_lines(s).drop_first() =~= spec_lines(content@.skip(next as int)));
                },
                None => {
                    assert(raw@ =~= s);
                    assert(content@.skip(next as int) =~= Seq::<u8>::empty());
                    assert(spec_lines(s) == seq![strip_cr(s)]);
                    assert(spec_lines(s)[0] == line@);
                    assert(spec_lines(s).drop_first() =~= spec_lines(content@.skip(next as int)));
                },
            }
        }
        match find_sub(line, marker.as_slice()) {
            Some(i) => {
                proof {
                    crate::text::lemma_first_match_from(line@, marker@, 0int);
                }
                let seg_end: usize = if i + 10 <= line.len() {
                    let rest = slice_subrange(line, i + 10, line.len());
                    proof {
                        assert(rest@ =~= line@.skip(i + 10));
                    }
                    match find_sub(rest, marker.as_slice()) {
                        Some(j) => {
                            proof {
                                crate::text::lemma_first_match_from(rest@, marker@, 0int);
                                lemma_match_shift(line@, marker@, i + 10);
                            }
                            i + 10 + j
                        },
                        None => {
                            proof {
                                lemma_match_shift(line@, marker@, i + 10);
                            }
                            line.len()
                        },
                    }
                } else {
                    line.len()
                };
                let seg = slice_subrange(line, i + 10, seg_end);
                proof {
                    assert(seg@ =~= line@.subrange(i + 10, seg_end as int));
                }
                let d = trim(trim_matches_byte(trim(seg), 42));
                proof {
                    assert(d@ == spec_date_from_line(line@));
                }
                return slice_to_vec(d);
            },
            None => {
                pos = next;
            },
        }
    }
}

/// Matches of `p` in the suffix of `s` starting at `d` are the
/// matches of `p` in `s` from `d` on, shifted.
proof fn lemma_match_shift(s: Seq<u8>, p: Seq<u8>, d: int)
    requires
        0 <= d <= s.len(),
    ensures
        match first_match_from(s.skip(d), p, 0) {
            Some(j) => first_match_from(s, p, d) == Some(d + j),
            None => first_match_from(s, p, d) is None,
        },
{
    let t = s.skip(d);
    crate::text::lemma_first_match_from(t, p, 0);
    crate::text::lemma_first_match_from(s, p, d);
    assert forall|k: int| 0 <= k implies (crate::text::matches_at(t, p, k) <==> crate::text::matches_at(
        s,
        p,
        d + k,
    )) by {
        if k + p.len() <= t.len() {
            assert(t.subrange(k, k + p.len()) =~= s.subrange(d + k, d + k + p.len()));
        }
    }
    match first_match_from(t, p, 0) {
        Some(j) => {
            assert(crate::text::matches_at(s, p, d + j));
            match first_match_from(s, p, d) {
                Some(x) => {
                    if x < d + j {
                        assert(crate::text::matches_at(t, p, x - d));
                    }
                    if x > d + j {
                        assert(!crate::text::matches_at(s, p, d + j));
                    }
                },
                None => {
                    assert(!crate::text::matches_at(s, p, d + j));
                },
            }
        },
        None => {
            match first_match_from(s, p, d) {
                Some(x) => {
                    assert(crate::text::matches_at(t, p, x - d));
                },
                None => {},
            }
        },
    }
}


/// Lexicographic byte-string order, as Rust orders strings.
pub open spec fn lex_le(a: Seq<u8>, b: Seq<u8>) -> bool
    decreases a.len(),
{
    if a.len() == 0 {
        true
    } else if b.len() == 0 {
        false
    } else if a[0] < b[0] {
        true
    } else if a[0] > b[0] {
        false
    } else {
        lex_le(a.drop_first(), b.drop_first())
    }
}

pub fn lex_le_bytes(a: &[u8], b: &[u8]) -> (r: bool)
    ensures
        r == lex_le(a@, b@),
    decreases a@.len(),
{
    if a.len() == 0 {
        true
    } else if b.len() == 0 {
        false
    } else if a[0] < b[0] {
        true
    } else if a[0] > b[0] {
        false
    } else {
        let at = slice_subrange(a, 1, a.len());
        let bt = slice_subrange(b, 1, b.len());
        proof {
            assert(at@ =~= a@.drop_first());
            assert(bt@ =~= b@.drop_first());
        }
        lex_le_bytes(at, bt)
    }
}

/// Blog metadata: slug, title and published date.
pub struct BlogMeta {
    pub slug: Vec<u8>,
    pub title: Vec<u8>,
    pub published_date: Vec<u8>,
}

/// The mathematical shape of one blog's metadata.
pub struct BlogMetaModel {
    pub slug: Seq<u8>,
    pub title: Seq<u8>,
    pub published_date: Seq<u8>,
}

impl View for BlogMeta {
    type V = BlogMetaModel;

    open spec fn view(&self) -> BlogMetaModel {
        BlogMetaModel {
            slug: self.slug@,
            title: self.title@,
            published_date: self.published_date@,
        }
    }
}

impl DeepView for BlogMeta {
    type V = BlogMetaModel;

    open spec fn deep_view(&self) -> BlogMetaModel {
        self.view()
    }
}

/// `e` placed into a date-descending list, after any entry with an
/// equal date, so that equal dates keep their original order.
pub open spec fn spec_insert_desc(s: Seq<BlogMetaModel>, e: BlogMetaModel) -> Seq<BlogMetaModel>
    decreases s.len(),
{
    if s.len() == 0 {
        seq![e]
    } else if !lex_le(e.published_date, s[0].published_date) {
        seq![e] + s
    } else {
        seq![s[0]] + spec_insert_desc(s.drop_first(), e)
    }
}

/// The list sorted by published date, most recent first, stably.
pub open spec fn spec_sort_desc(s: Seq<BlogMetaModel>) -> Seq<BlogMetaModel>
    decreases s.len(),
{
    if s.len() == 0 {
        Seq::empty()
    } else {
        spec_insert_desc(spec_sort_desc(s.drop_last()), s.last())
    }
}

/// Where `spec_insert_desc` places the new entry: at the first
/// position whose date is strictly older.
proof fn lemma_insert_desc_at(s: Seq<BlogMetaModel>, e: BlogMetaModel, p: int)
    requires
        0 <= p <= s.len(),
        forall|k: int| 0 <= k < p ==> lex_le(e.published_date, #[trigger] s[k].published_date),
        p < s.len() ==> !lex_le(e.published_date, s[p].published_date),
    ensures
        spec_insert_desc(s, e) == s.take(p) + seq![e] + s.skip(p),
    decreases s.len(),
{
    if s.len() == 0 {
        assert(s.take(0) + seq![e] + s.skip(0) =~= seq![e]);
    } else if p == 0 {
        assert(s.take(0) + seq![e] + s.skip(0) =~= seq![e] + s);
    } else {
        assert(lex_le(e.published_date, s[0].published_date));
        let t = s.drop_first();
        assert(forall|k: int| 0 <= k < p - 1 ==> t[k] == s[k + 1]);
        lemma_insert_desc_at(t, e, p - 1);
        assert(seq![s[0]] + (t.take(p - 1) + seq![e] + t.skip(p - 1)) =~= s.take(p) + seq![e]
            + s.skip(p));
    }
}

/// Sort blog entries by published date, most recent first; entries
/// with equal dates keep their order.
pub fn sort_blogs_desc(entries: Vec<BlogMeta>) -> (r: Vec<BlogMeta>)
    ensures
        r.deep_view() == spec_sort_desc(entries.deep_view()),
{
    let mut out: Vec<BlogMeta> = Vec::new();
    let mut idx: usize = 0;
    proof {
        assert(entries.deep_view().take(0) =~= Seq::<BlogMetaModel>::empty());
        assert(out.deep_view() =~= spec_sort_desc(entries.deep_view().take(0)));
    }
    while idx < entries.len()
        invariant
            idx <= entries@.len(),
            out.deep_view() == spec_sort_desc(entries.deep_view().take(idx as int)),
        decreases entries@.len() - idx,
    {
        let ghost sorted0 = out.deep_view();
        let e = clone_entry(&entries, idx);
        let mut p: usize = 0;
        while p < out.len()
            invariant_except_break
                p <= out@.len(),
                out.deep_view() == sorted0,
                forall|k: int|
                    0 <= k < p ==> lex_le(
                        e@.published_date,
                        #[trigger] sorted0[k].published_date,
                    ),
            ensures
                p <= sorted0.len(),
                out.deep_view() == sorted0,
                forall|k: int|
                    0 <= k < p ==> lex_le(
                        e@.published_date,
                        #[trigger] sorted0[k].published_date,
                    ),
                p < sorted0.len() ==> !lex_le(e@.published_date, sorted0[p as int].published_date),
            decreases out@.len() - p,
        {
            if !lex_le_bytes(e.published_date.as_slice(), out[p].published_date.as_slice()) {
                break;
            }
            p += 1;
        }
        proof {
            lemma_insert_desc_at(sorted0, e@, p as int);
        }
        out.insert(p, e);
        proof {
            assert(out.deep_view() =~= sorted0.take(p as int) + seq![e@] + sorted0.skip(p as int));
            assert(entries.deep_view().take(idx + 1).drop_last() =~= entries.deep_view().take(
                idx as int,
            ));
            assert(entries.deep_view().take(idx + 1).last() == e@);
        }
        idx += 1;
    }
    proof {
        assert(entries.deep_view().take(entries.deep_view().len() as int) =~= entries.deep_view());
    }
    out
}

/// A copy of the entry at `i`.
fn clone_entry(entries: &Vec<BlogMeta>, i: usize) -> (e: BlogMeta)
    requires
        i < entries@.len(),
    ensures
        e@ == entries.deep_view()[i as int],
{
    let slug = entries[i].slug.clone();
    let title = entries[i].title.clone();
    let published_date = entries[i].published_date.clone();
    BlogMeta { slug, title, published_date }
}


/// One blog's metadata as a JSON object, each string escaped.
pub open spec fn spec_blog_item_json(m: BlogMetaModel) -> Seq<u8> {
    "{\"slug\":\"".spec_bytes() + spec_json_escape(m.slug) + "\",\"title\":\"".spec_bytes()
        + spec_json_escape(m.title) + "\",\"published_date\":\"".spec_bytes()
        + spec_json_escape(m.published_date) + "\"}".spec_bytes()
}

/// The remaining items of a JSON array, each preceded by a comma.
pub open spec fn spec_blog_items_rest(items: Seq<BlogMetaModel>) -> Seq<u8>
    decreases items.len(),
{
    if items.len() == 0 {
        Seq::empty()
    } else {
        ",".spec_bytes() + spec_blog_item_json(items[0]) + spec_blog_items_rest(
            items.drop_first(),
        )
    }
}

/// The blog list response body.
pub open spec fn spec_blogs_list_json(items: Seq<BlogMetaModel>) -> Seq<u8> {
    if items.len() == 0 {
        "{\"blogs\":[".spec_bytes() + "]}".spec_bytes()
    } else {
        "{\"blogs\":[".spec_bytes() + spec_blog_item_json(items[0]) + spec_blog_items_rest(
            items.drop_first(),
        ) + "]}".spec_bytes()
    }
}

fn blog_item_json(m: &BlogMeta) -> (r: Vec<u8>)
    ensures
        r@ == spec_blog_item_json(m@),
{
    let mut r = str_bytes("{\"slug\":\"");
    let e1 = json_escape(m.slug.as_slice());
    r.extend_from_slice(e1.as_slice());
    r.extend_from_slice(str_bytes("\",\"title\":\"").as_slice());
    let e2 = json_escape(m.title.as_slice());
    r.extend_from_slice(e2.as_slice());
    r.extend_from_slice(str_bytes("\",\"published_date\":\"").as_slice());
    let e3 = json_escape(m.published_date.as_slice());
    r.extend_from_slice(e3.as_slice());
    r.extend_from_slice(str_bytes("\"}").as_slice());
    proof {
        assert(r@ =~= spec_blog_item_json(m@));
    }
    r
}

/// The metadata drawn from each (slug, markdown text) pair.
pub open spec fn spec_blog_metas(entries: Seq<(Seq<u8>, Seq<u8>)>) -> Seq<BlogMetaModel> {
    Seq::new(
        entries.len(),
        |i: int|
            BlogMetaModel {
                slug: entries[i].0,
                title: spec_blog_title(entries[i].0, entries[i].1),
                published_date: spec_blog_date(entries[i].1),
            },
    )
}

/// The view of a list of (slug, markdown text) pairs.
pub open spec fn spec_entry_pairs(v: Seq<(Vec<u8>, Vec<u8>)>) -> Seq<(Seq<u8>, Seq<u8>)> {
    Seq::new(v.len(), |i: int| (v[i].0@, v[i].1@))
}

/// The blog list response for the given (slug, markdown text)
/// pairs: metadata drawn from each file, sorted by published date
/// descending, emitted as the exact JSON body.
pub fn handle_blogs_list_api(entries: &Vec<(Vec<u8>, Vec<u8>)>) -> (r: Vec<u8>)
    ensures
        r@ == spec_blogs_list_json(spec_sort_desc(spec_blog_metas(spec_entry_pairs(entries@)))),
{
    let mut metas: Vec<BlogMeta> = Vec::new();
    let mut i: usize = 0;
    while i < entries.len()
        invariant
            i <= entries@.len(),
            metas.deep_view() =~= spec_blog_metas(spec_entry_pairs(entries@)).take(i as int),
        decreases entries@.len() - i,
    {
        let slug = entries[i].0.clone();
        let title = blog_title(entries[i].0.as_slice(), entries[i].1.as_slice());
        let published_date = blog_date(entries[i].1.as_slice());
        proof {
            let ep = spec_entry_pairs(entries@);
            assert(slug@ == entries@[i as int].0@);
            assert(ep[i as int] == (entries@[i as int].0@, entries@[i as int].1@));
            assert(title@ == spec_blog_title(ep[i as int].0, ep[i as int].1));
            assert(published_date@ == spec_blog_date(ep[i as int].1));
        }
        let ghost mdv0 = metas.deep_view();
        let ghost em = BlogMetaModel { slug: slug@, title: title@, published_date: published_date@ };
        metas.push(BlogMeta { slug, title, published_date });
        proof {
            let target = spec_blog_metas(spec_entry_pairs(entries@));
            assert(metas.deep_view() =~= mdv0.push(em));
            assert(target[i as int] == em);
            assert(target.take(i + 1) =~= target.take(i as int).push(target[i as int]));
            assert(metas.deep_view() =~= target.take(i + 1));
        }
        i += 1;
    }
    proof {
        assert(spec_blog_metas(spec_entry_pairs(entries@)).take(entries@.len() as int)
            =~= spec_blog_metas(spec_entry_pairs(entries@)));
    }
    let sorted = sort_blogs_desc(metas);
    let ghost items = spec_sort_desc(spec_blog_metas(spec_entry_pairs(entries@)));
    let mut r = str_bytes("{\"blogs\":[");
    let mut j: usize = 0;
    proof {
        assert(items.skip(0) =~= items);
    }
    while j < sorted.len()
        invariant
            j <= sorted@.len(),
            sorted.deep_view() == items,
            j == 0 ==> r@ == "{\"blogs\":[".spec_bytes(),
            j > 0 ==> "{\"blogs\":[".spec_bytes() + spec_blog_item_json(items[0])
                + spec_blog_items_rest(items.skip(1)) =~= r@ + spec_blog_items_rest(
                items.skip(j as int),
            ),
        decreases sorted@.len() - j,
    {
        let ghost pre = r@;
        if j > 0 {
            r.extend_from_slice(str_bytes(",").as_slice());
        }
        let item = blog_item_json(&sorted[j]);
        r.extend_from_slice(item.as_slice());
        proof {
            assert(sorted.deep_view()[j as int] == sorted@[j as int]@);
            if j == 0 {
                assert(r@ =~= "{\"blogs\":[".spec_bytes() + spec_blog_item_json(items[0]));
            } else {
                let t = items.skip(j as int);
                assert(t[0] == items[j as int]);
                assert(t.drop_first() =~= items.skip(j + 1));
                assert(spec_blog_items_rest(t) == ",".spec_bytes() + spec_blog_item_json(
                    items[j as int],
                ) + spec_blog_items_rest(items.skip(j + 1)));
                assert(r@ =~= pre + (",".spec_bytes() + spec_blog_item_json(items[j as int])));
            }
            assert(items.skip(1).len() == 0 ==> spec_blog_items_rest(items.skip(1))
                == Seq::<u8>::empty());
        }
        j += 1;
    }
    r.extend_from_slice(str_bytes("]}").as_slice());
    proof {
        if items.len() == 0 {
            assert(r@ =~= spec_blogs_list_json(items));
        } else {
            assert(items.skip(items.len() as int).len() == 0);
            assert(spec_blog_items_rest(items.skip(items.len() as int)) == Seq::<u8>::empty());
            assert(r@ =~= spec_blogs_list_json(items));
        }
    }
    r
}

/// The error text for a missing blog post.
pub open spec fn spec_blog_missing_msg(slug: Seq<u8>) -> Seq<u8> {
    "Blog post '".spec_bytes() + slug + "' not found".spec_bytes()
}

fn blog_missing_msg(slug: &[u8]) -> (r: Vec<u8>)
    ensures
        r@ == spec_blog_missing_msg(slug@),
{
    let mut r = str_bytes("Blog post '");
    r.extend_from_slice(slug);
    r.extend_from_slice(str_bytes("' not found").as_slice());
    proof {
        assert(r@ =~= spec_blog_missing_msg(slug@));
    }
    r
}

/// The blog post API body: the metadata and the rendered HTML.
pub open spec fn spec_blog_post_json(slug: Seq<u8>, content: Seq<u8>) -> Seq<u8> {
    "{\"slug\":\"".spec_bytes() + spec_json_escape(slug) + "\",\"title\":\"".spec_bytes()
        + spec_json_escape(spec_blog_title(slug, content)) + "\",\"published_date\":\"".spec_bytes()
        + spec_json_escape(spec_blog_date(content)) + "\",\"content\":\"".spec_bytes()
        + spec_json_escape(rendered_markdown(content)) + "\"}".spec_bytes()
}

/// The blog post API response body, or the error text when the
/// caller found no file for the slug.
pub fn handle_blog_post_api(slug: &[u8], content: Option<Vec<u8>>) -> (r: Result<Vec<u8>, Vec<u8>>)
    ensures
        match r {
            Ok(body) => content matches Some(c) && body@ == spec_blog_post_json(slug@, c@),
            Err(msg) => content is None && msg@ == spec_blog_missing_msg(slug@),
        },
{
    let content = match content {
        Some(c) => c,
        None => {
            return Err(blog_missing_msg(slug));
        },
    };
    let title = blog_title(slug, content.as_slice());
    let date = blog_date(content.as_slice());
    let html = render_markdown(content.as_slice());
    let mut r = str_bytes("{\"slug\":\"");
    let e0 = json_escape(slug);
    r.extend_from_slice(e0.as_slice());
    r.extend_from_slice(str_bytes("\",\"title\":\"").as_slice());
    let e1 = json_escape(title.as_slice());
    r.extend_from_slice(e1.as_slice());
    r.extend_from_slice(str_bytes("\",\"published_date\":\"").as_slice());
    let e2 = json_escape(date.as_slice());
    r.extend_from_slice(e2.as_slice());
    r.extend_from_slice(str_bytes("\",\"content\":\"").as_slice());
    let e3 = json_escape(html.as_slice());
    r.extend_from_slice(e3.as_slice());
    r.extend_from_slice(str_bytes("\"}").as_slice());
    proof {
        assert(r@ =~= spec_blog_post_json(slug@, content@));
    }
    Ok(r)
}


pub const TPL_PAGE_0: &'static str = r#"<!DOCTYPE html>
<html lang="en">
    <head>
        <meta charset="utf-8" />
        <meta name="viewport" content="width=device-width, initial-scale=1" />
        <title>"#;

pub const TPL_PAGE_1: &'static str = r#" — Blogs — Will Vincent Parrone</title>
        <link rel="stylesheet" href="/index.css" />
        <link rel="stylesheet" href="/chatbar.css" />
    </head>
    <body>
        <header class="site-header">
            <nav class="nav" aria-label="Primary">
                <a class="brand" href="/">WVP</a>
                <button class="nav-toggle" aria-expanded="false" aria-controls="nav-menu">Menu</button>
                <ul id="nav-menu" class="nav-menu">
                    <li><a href="/">Home</a></li>
                    <li><a href="/blogs">Blogs</a></li>
                </ul>
            </nav>
        </header>

        <main>
            <div class="container" style="padding: 3rem 0;">
                <div class="blog-post">
                    <button id="blog-back" class="blog-back" aria-label="Back to blogs">← Back to Blogs</button>
                    <article class="blog-content">
                        <header class="blog-header">
                            <h1>"#;

pub const TPL_PAGE_2: &'static str = r#"</h1>
                            <div class="blog-meta">Published: "#;

pub const TPL_PAGE_3: &'static str = r#"</div>
                        </header>
                        <div class="blog-body">"#;

pub const TPL_PAGE_4: &'static str = r#"</div>
                    </article>
                </div>
            </div>
        </main>

        <footer class="site-footer">
            <div class="container">
                <small>© <span id="year"></span> Will Vincent Parrone</small>
            </div>
        </footer>

        <!-- Chatbar Component -->
        <div id="chatbar" class="chatbar">
            <button class="chatbar-toggle" aria-label="Toggle chat" aria-expanded="false">
                <svg width="24" height="24" viewBox="0 0 24 24" fill="none" stroke="currentColor" stroke-width="2">
                    <path d="M21 15a2 2 0 0 1-2 2H7l-4 4V5a2 2 0 0 1 2-2h14a2 2 0 0 1 2 2z"/>
                </svg>
            </button>
            <div class="chatbar-panel">
                <div class="chatbar-header">
                    <h3>Chat</h3>
                    <button class="chatbar-close" aria-label="Close chat">
                        <svg width="20" height="20" viewBox="0 0 24 24" fill="none" stroke="currentColor" stroke-width="2">
                            <line x1="18" y1="6" x2="6" y2="18"/>
                            <line x1="6" y1="6" x2="18" y2="18"/>
                        </svg>
                    </button>
                </div>
                <div class="chatbar-messages" id="chatbar-messages">
                    <div class="chatbar-message chatbar-message-system">
                        <p>Hello! How can I help you today?</p>
                    </div>
                </div>
                <div class="chatbar-input-container">
                    <form id="chatbar-form" class="chatbar-form">
                        <input 
                            type="text" 
                            id="chatbar-input" 
                            class="chatbar-input" 
                            placeholder="Type your message..." 
                            autocomplete="off"
                            aria-label="Message input"
                        />
                        <button type="submit" class="chatbar-send" aria-label="Send message">
                            <svg width="20" height="20" viewBox="0 0 24 24" fill="none" stroke="currentColor" stroke-width="2">
                                <line x1="22" y1="2" x2="11" y2="13"/>
                                <polygon points="22 2 15 22 11 13 2 9 22 2"/>
                            </svg>
                        </button>
                    </form>
                </div>
            </div>
        </div>

        <script src="/chatbar.js"></script>
        <script>
            const yearEl = document.getElementById('year');
            if (yearEl) { yearEl.textContent = new Date().getFullYear(); }
            const toggle = document.querySelector('.nav-toggle');
            const menu = document.getElementById('nav-menu');
            if (toggle && menu) {
                toggle.addEventListener('click', () => {
                    const open = menu.classList.toggle('open');
                    toggle.setAttribute('aria-expanded', String(open));
                });
            }

            const blogBackBtn = document.getElementById('blog-back');
            if (blogBackBtn) {
                blogBackBtn.addEventListener('click', () => {
                    window.location.href = '/blogs';
                });
            }
        </script>
    </body>
</html>"#;

/// The full HTML page for a blog post: the fixed page frame with the
/// title (twice), the published date and the rendered post embedded.
pub open spec fn spec_blog_page_html(title: Seq<u8>, date: Seq<u8>, content_html: Seq<u8>) -> Seq<
    u8,
> {
    TPL_PAGE_0.spec_bytes() + title + TPL_PAGE_1.spec_bytes() + title + TPL_PAGE_2.spec_bytes()
        + date + TPL_PAGE_3.spec_bytes() + content_html + TPL_PAGE_4.spec_bytes()
}

/// The blog page response body for the slug's markdown text, or the
/// error text when the caller found no file for the slug.
pub fn handle_blog_post_page(slug: &[u8], content: Option<Vec<u8>>) -> (r: Result<
    Vec<u8>,
    Vec<u8>,
>)
    ensures
        match r {
            Ok(body) => content matches Some(c) && body@ == spec_blog_page_html(
                spec_blog_title(slug@, c@),
                spec_blog_date(c@),
                rendered_markdown(c@),
            ),
            Err(msg) => content is None && msg@ == spec_blog_missing_msg(slug@),
        },
{
    let content = match content {
        Some(c) => c,
        None => {
            return Err(blog_missing_msg(slug));
        },
    };
    let title = blog_title(slug, content.as_slice());
    let date = blog_date(content.as_slice());
    let html = render_markdown(content.as_slice());
    let mut r = str_bytes(TPL_PAGE_0);
    r.extend_from_slice(title.as_slice());
    r.extend_from_slice(str_bytes(TPL_PAGE_1).as_slice());
    r.extend_from_slice(title.as_slice());
    r.extend_from_slice(str_bytes(TPL_PAGE_2).as_slice());
    r.extend_from_slice(date.as_slice());
    r.extend_from_slice(str_bytes(TPL_PAGE_3).as_slice());
    r.extend_from_slice(html.as_slice());
    r.extend_from_slice(str_bytes(TPL_PAGE_4).as_slice());
    proof {
        assert(r@ =~= spec_blog_page_html(
            spec_blog_title(slug@, content@),
            spec_blog_date(content@),
            rendered_markdown(content@),
        ));
    }
    Ok(r)
}


/// The full response for `GET /api/blogs`: 200 with the sorted list
/// body.
pub fn blogs_list_response(entries: &Vec<(Vec<u8>, Vec<u8>)>) -> (r: Vec<u8>)
    ensures
        r@ == crate::response::spec_ok_json_response(
            spec_blogs_list_json(spec_sort_desc(spec_blog_metas(spec_entry_pairs(entries@)))),
        ),
{
    let body = handle_blogs_list_api(entries);
    crate::response::ok_json_response(body.as_slice())
}

/// The full response for `GET /api/blog/{slug}`: 200 with the JSON
/// body when the caller found the file, else a 404 JSON error
/// envelope — a missing post is a missing resource, not a handler
/// fault.
pub fn blog_post_api_response(slug: &[u8], content: Option<Vec<u8>>) -> (r: Vec<u8>)
    requires
        slug@.len() + 22 <= (usize::MAX - 12) / 6,
    ensures
        r@ == match content {
            Some(c) => crate::response::spec_ok_json_response(spec_blog_post_json(slug@, c@)),
            None => crate::response::spec_not_found_json_response(spec_blog_missing_msg(slug@)),
        },
{
    match handle_blog_post_api(slug, content) {
        Ok(body) => crate::response::ok_json_response(body.as_slice()),
        Err(msg) => {
            proof {
                reveal_strlit("Blog post '");
                reveal_strlit("' not found");
                crate::text::lemma_ascii_str_bytes("Blog post '");
                crate::text::lemma_ascii_str_bytes("' not found");
            }
            crate::response::not_found_json_response(msg.as_slice())
        },
    }
}

/// The full response for `GET /blogs/{slug}`: 200 with the HTML page
/// when the caller found the file, else the 404 page with the
/// message embedded.
pub fn blog_post_page_response(slug: &[u8], content: Option<Vec<u8>>) -> (r: Vec<u8>)
    requires
        slug@.len() + 83 <= usize::MAX,
    ensures
        r@ == match content {
            Some(c) => crate::response::spec_ok_html_response(
                spec_blog_page_html(
                    spec_blog_title(slug@, c@),
                    spec_blog_date(c@),
                    rendered_markdown(c@),
                ),
            ),
            None => crate::response::spec_blog_not_found_page(spec_blog_missing_msg(slug@)),
        },
{
    match handle_blog_post_page(slug, content) {
        Ok(body) => crate::response::ok_html_response(body.as_slice()),
        Err(msg) => {
            proof {
                reveal_strlit("Blog post '");
                reveal_strlit("' not found");
                crate::text::lemma_ascii_str_bytes("Blog post '");
                crate::text::lemma_ascii_str_bytes("' not found");
            }
            crate::response::blog_not_found_page(msg.as_slice())
        },
    }
}

} // verus!