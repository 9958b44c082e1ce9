use vstd::prelude::*;

use crate::paths::SourcePath;

verus! {

/// An instant with a fixed display offset: seconds since the Unix epoch,
/// and the local offset east of UTC in seconds. Two timestamps compare by
/// their instant alone; the offset only shapes the formatted form.
#[derive(Clone, Copy, PartialEq, Eq, Structural, Debug)]
pub struct Timestamp {
    pub secs: i64,
    pub offset_secs: i32,
}

/// The lowest instant a timestamp may carry: the start of year 1 UTC. At
/// any allowed offset its local date still formats within RFC 2822's years.
pub const MIN_TIMESTAMP_SECS: i64 = -62135596800;

/// The highest instant a timestamp may carry: the start of the last day of
/// year 9999 UTC. At any allowed offset its local date still formats within
/// RFC 2822's years.
pub const MAX_TIMESTAMP_SECS: i64 = 253402214400;

impl Timestamp {
    /// The instant fits a formattable date and the offset is a valid
    /// fixed offset (strictly less than one day in either direction).
    pub open spec fn wf(self) -> bool {
        &&& MIN_TIMESTAMP_SECS <= self.secs <= MAX_TIMESTAMP_SECS
        &&& -86400 < self.offset_secs < 86400
    }

    /// Decides `wf`.
    pub fn is_valid(&self) -> (r: bool)
        ensures
            r == self.wf(),
    {
        MIN_TIMESTAMP_SECS <= self.secs && self.secs <= MAX_TIMESTAMP_SECS && -86400
            < self.offset_secs && self.offset_secs < 86400
    }
}

/// The structured metadata of a document. The title and the canonical link
/// may be absent; feed assembly is the one consumer that requires them.
#[derive(Debug)]
pub struct FrontMatter {
    pub tags: Vec<String>,
    pub title: Option<String>,
    pub link: Option<String>,
    pub date: Timestamp,
    pub link_text: Option<String>,
}

/// The mathematical value of a `FrontMatter`.
#[verifier::ext_equal]
pub ghost struct FrontMatterView {
    pub tags: Seq<Seq<char>>,
    pub title: Option<Seq<char>>,
    pub link: Option<Seq<char>>,
    pub date: Timestamp,
    pub link_text: Option<Seq<char>>,
}

impl DeepView for FrontMatter {
    type V = FrontMatterView;

    open spec fn deep_view(&self) -> FrontMatterView {
        FrontMatterView {
            tags: self.tags.deep_view(),
            title: self.title.deep_view(),
            link: self.link.deep_view(),
            date: self.date,
            link_text: self.link_text.deep_view(),
        }
    }
}

/// An immutable source document: its metadata, its raw body, and the
/// identity key it was loaded under.
#[derive(Debug)]
pub struct Post {
    pub frontmatter: FrontMatter,
    pub content: String,
    pub filename: SourcePath,
}

/// The mathematical value of a `Post`.
#[verifier::ext_equal]
pub ghost struct PostView {
    pub frontmatter: FrontMatterView,
    pub content: Seq<char>,
    pub filename: Seq<char>,
}

impl DeepView for Post {
    type V = PostView;

    open spec fn deep_view(&self) -> PostView {
        PostView {
            frontmatter: self.frontmatter.deep_view(),
            content: self.content@,
            filename: self.filename@,
        }
    }
}

impl PostView {
    /// A valid document carries a well-formed timestamp.
    pub open spec fn wf(self) -> bool {
        self.frontmatter.date.wf()
    }
}

impl Post {
    /// A valid document carries a well-formed timestamp.
    pub open spec fn wf(&self) -> bool {
        self.deep_view().wf()
    }
}

/// Clones a list of strings, keeping every character sequence.
pub(crate) fn clone_strings(v: &Vec<String>) -> (r: Vec<String>)
    ensures
        r.deep_view() == v.deep_view(),
{
    let mut out: Vec<String> = Vec::new();
    let mut i: usize = 0;
    proof {
        assert(out.deep_view() =~= v.deep_view().take(0));
    }
    while i < v.len()
        invariant
            i <= v@.len(),
            out@.len() == i,
            out.deep_view() == v.deep_view().take(i as int),
        decreases v@.len() - i,
    {
        let ghost prevdeep = out.deep_view();
        let ghost prevseq = out@;
        out.push(v[i].clone());
        proof {
            assert forall|j: int| 0 <= j < i + 1 implies out.deep_view()[j] == v.deep_view().take(
                i + 1,
            )[j] by {
                assert(out.deep_view()[j] == out@[j].deep_view());
                if j < i {
                    assert(out@[j] == prevseq[j]);
                    assert(prevdeep[j] == prevseq[j].deep_view());
                    assert(prevdeep[j] == v.deep_view().take(i as int)[j]);
                } else {
                    assert(out@[j]@ == v@[j]@);
                }
            }
            assert(out.deep_view() =~= v.deep_view().take(i + 1));
        }
        i = i + 1;
    }
    proof {
        assert(v.deep_view().take(v@.len() as int) =~= v.deep_view());
    }
    out
}

/// Clones an optional string, keeping the character sequence.
fn clone_opt_string(v: &Option<String>) -> (r: Option<String>)
    ensures
        r.deep_view() == v.deep_view(),
{
    match v {
        Some(s) => Some(s.clone()),
        None => None,
    }
}

impl Clone for FrontMatter {
    fn clone(&self) -> (r: Self)
        ensures
            r.deep_view() == self.deep_view(),
    {
        let r = FrontMatter {
            tags: clone_strings(&self.tags),
            title: clone_opt_string(&self.title),
            link: clone_opt_string(&self.link),
            date: self.date,
            link_text: clone_opt_string(&self.link_text),
        };
        proof {
            assert(r.deep_view() =~= self.deep_view());
        }
        r
    }
}

impl Clone for Post {
    fn clone(&self) -> (r: Self)
        ensures
            r.deep_view() == self.deep_view(),
    {
        let r = Post {
            frontmatter: self.frontmatter.clone(),
            content: self.content.clone(),
            filename: self.filename.clone(),
        };
        proof {
            assert(r.deep_view() =~= self.deep_view());
        }
        r
    }
}

} // verus!
