use vstd::prelude::*;

use crate::text::{append_chars, append_escaped, char_len_utf8, char_utf8_len, chars_to_string, escape_seq, string_to_chars};

verus! {

// ---------------------------------------------------------------------------
// Markup rendering. The rendering internals live in outside crates; what
// they return is a pure function of the input text, so each call gets a
// name, and everything built on top of those names is verified.
// ---------------------------------------------------------------------------

/// What `pulldown_cmark`'s HTML renderer produces for a CommonMark text.
pub uninterp spec fn raw_html_of(s: Seq<char>) -> Seq<char>;

/// What `ammonia`'s sanitizer leaves of an HTML text.
pub uninterp spec fn clean_of(s: Seq<char>) -> Seq<char>;

/// The text events of a CommonMark text, in document order.
pub uninterp spec fn text_events_of(s: Seq<char>) -> Seq<Seq<char>>;

/// Relies on `pulldown_cmark::html::push_html` over `Parser::new(s)`: the
/// rendered HTML of the CommonMark input, a function of the text alone.
#[verifier::external_body]
fn markdown_to_html(s: &str) -> (r: String)
    ensures
        r@ == raw_html_of(s@),
{
    let mut html = String::new();
    pulldown_cmark::html::push_html(&mut html, pulldown_cmark::Parser::new(s));
    html
}

/// Relies on `ammonia::clean`: the sanitized form of the HTML input, a
/// function of the text alone.
#[verifier::external_body]
fn sanitize_html(s: &str) -> (r: String)
    ensures
        r@ == clean_of(s@),
{
    ammonia::clean(s)
}

/// Relies on `pulldown_cmark::Parser`: hands back the `Text` events of the
/// CommonMark input, in order, as plain strings.
#[verifier::external_body]
fn markdown_text_events(s: &str) -> (r: Vec<String>)
    ensures
        r.deep_view() == text_events_of(s@),
{
    pulldown_cmark::Parser::new(s)
        .filter_map(|event| match event {
            pulldown_cmark::Event::Text(text) => Some(text.into_string()),
            _ => None,
        })
        .collect()
}

/// The sanitized rendering of a document body: the markdown renderer's
/// output, passed through the sanitizer.
pub open spec fn markup_of(s: Seq<char>) -> Seq<char> {
    clean_of(raw_html_of(s))
}

/// The text events of a body, joined in order with a space after each.
pub open spec fn join_spaced(ts: Seq<Seq<char>>) -> Seq<char>
    decreases ts.len(),
{
    if ts.len() == 0 {
        Seq::empty()
    } else {
        join_spaced(ts.drop_last()) + ts.last() + seq![' ']
    }
}

/// Scans `j` from character `i` with `acc` bytes already counted: the
/// character index at which the running UTF-8 byte length reaches exactly
/// 140, or `-1` when the text ends first or a character straddles byte 140.
pub open spec fn cut_scan(j: Seq<char>, i: int, acc: int) -> int
    decreases j.len() - i,
{
    if acc == 140 {
        i
    } else if acc > 140 || i >= j.len() || i < 0 {
        -1
    } else {
        cut_scan(j, i + 1, acc + char_utf8_len(j[i]))
    }
}

/// The character index the excerpt is cut at, when byte 140 of the joined
/// text falls on a character boundary.
fn cut_index(joined: &Vec<char>) -> (r: Option<usize>)
    ensures
        match r {
            Some(c) => cut_scan(joined@, 0, 0) == c as int && c <= joined@.len(),
            None => cut_scan(joined@, 0, 0) < 0,
        },
{
    let n = joined.len();
    let mut i: usize = 0;
    let mut acc: usize = 0;
    loop
        invariant
            i <= n,
            acc <= 143,
            n == joined@.len(),
            cut_scan(joined@, 0, 0) == cut_scan(joined@, i as int, acc as int),
        decreases 144 - acc,
    {
        if acc == 140 {
            return Some(i);
        }
        if acc > 140 || i == n {
            return None;
        }
        acc = acc + char_len_utf8(joined[i]);
        i = i + 1;
    }
}

/// The excerpt text of a body: its joined text events, cut before the
/// character at which their UTF-8 form reaches 140 bytes; the text stays
/// whole when it is shorter than that, and also when byte 140 falls inside
/// a character, so a cut never splits one.
pub open spec fn excerpt_text_of(s: Seq<char>) -> Seq<char> {
    let joined = join_spaced(text_events_of(s));
    let cut = cut_scan(joined, 0, 0);
    if cut < 0 {
        joined
    } else {
        joined.take(cut)
    }
}

/// The excerpt markup of a body: its escaped excerpt text in a paragraph,
/// with a trailing ellipsis appended.
pub open spec fn excerpt_markup_of(s: Seq<char>) -> Seq<char> {
    "<p>"@ + escape_seq(excerpt_text_of(s)) + "...</p>"@
}

/// The sanitized rendering of a body text: the render derivation.
pub(crate) fn render_markup(s: &str) -> (r: String)
    ensures
        r@ == markup_of(s@),
{
    let raw = markdown_to_html(s);
    sanitize_html(raw.as_str())
}

/// A block of CommonMark text, rendered to sanitized HTML.
pub struct Markdown(pub String);

impl Markdown {
    /// The sanitized rendering of the text.
    pub fn render(&self) -> (r: String)
        ensures
            r@ == markup_of(self.0@),
    {
        render_markup(self.0.as_str())
    }
}

/// The excerpt paragraph of a body text: the excerpt derivation.
pub(crate) fn render_excerpt(s: &str) -> (r: String)
    ensures
        r@ == excerpt_markup_of(s@),
{
    let texts = markdown_text_events(s);
        let ghost td = texts.deep_view();
        let mut joined: Vec<char> = Vec::new();
        let mut i: usize = 0;
        proof {
            assert(td.take(0) =~= Seq::<Seq<char>>::empty());
        }
        while i < texts.len()
            invariant
                i <= texts@.len(),
                td == texts.deep_view(),
                td.len() == texts@.len(),
                joined@ == join_spaced(td.take(i as int)),
            decreases texts@.len() - i,
        {
            append_chars(&mut joined, texts[i].as_str());
            joined.push(' ');
            proof {
                assert(td.take(i + 1).drop_last() =~= td.take(i as int));
                assert(td.take(i + 1).last() == td[i as int]);
                assert(texts@[i as int]@ == td[i as int]);
                assert(joined@ =~= join_spaced(td.take(i + 1)));
            }
            i = i + 1;
        }
        proof {
            assert(td.take(td.len() as int) =~= td);
        }
    let ghost jd = joined@;
    match cut_index(&joined) {
        Some(c) => {
            joined.truncate(c);
            proof {
                assert(joined@ =~= jd.take(cut_scan(jd, 0, 0)));
            }
        },
        None => {},
    }
    let mut out: Vec<char> = Vec::new();
        append_chars(&mut out, "<p>");
        append_escaped(&mut out, &joined);
        append_chars(&mut out, "...</p>");
    proof {
        assert(out@ =~= excerpt_markup_of(s@));
    }
    chars_to_string(&out)
}

/// A block of CommonMark text, reduced to a short plain-text excerpt.
pub struct Blurb(pub String);

impl Blurb {
    /// The excerpt paragraph of the text.
    pub fn render(&self) -> (r: String)
        ensures
            r@ == excerpt_markup_of(self.0@),
    {
        render_excerpt(self.0.as_str())
    }
}

/// The markup linking a CSS stylesheet at a given location.
pub open spec fn css_markup_of(href: Seq<char>) -> Seq<char> {
    "<link rel=\"stylesheet\" type=\"text/css\" href=\""@ + escape_seq(href) + "\">"@
}

/// A link to a CSS stylesheet at the given path.
pub struct Css(pub &'static str);

impl Css {
    /// The stylesheet link markup.
    pub fn render(&self) -> (r: String)
        ensures
            r@ == css_markup_of(self.0@),
    {
        let mut out: Vec<char> = Vec::new();
        append_chars(&mut out, "<link rel=\"stylesheet\" type=\"text/css\" href=\"");
        let href = string_to_chars(self.0);
        append_escaped(&mut out, &href);
        append_chars(&mut out, "\">");
        proof {
            assert(out@ =~= css_markup_of(self.0@));
        }
        chars_to_string(&out)
    }
}

} // verus!
