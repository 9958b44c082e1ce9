use vstd::prelude::*;

use crate::text::{append_chars, chars_to_string, string_to_chars};

verus! {

/// Stable identity of one source document: its location, as a path string.
#[derive(Debug)]
pub struct SourcePath(pub String);

/// Location of a published artifact under the output root.
#[derive(Debug)]
pub struct PublicPath(pub String);

impl View for SourcePath {
    type V = Seq<char>;

    open spec fn view(&self) -> Seq<char> {
        self.0@
    }
}

impl View for PublicPath {
    type V = Seq<char>;

    open spec fn view(&self) -> Seq<char> {
        self.0@
    }
}

impl DeepView for SourcePath {
    type V = Seq<char>;

    open spec fn deep_view(&self) -> Seq<char> {
        self.0@
    }
}

impl DeepView for PublicPath {
    type V = Seq<char>;

    open spec fn deep_view(&self) -> Seq<char> {
        self.0@
    }
}

impl Clone for SourcePath {
    fn clone(&self) -> (r: Self)
        ensures
            r@ == self@,
    {
        SourcePath(self.0.clone())
    }
}

impl Clone for PublicPath {
    fn clone(&self) -> (r: Self)
        ensures
            r@ == self@,
    {
        PublicPath(self.0.clone())
    }
}

// ---------------------------------------------------------------------------
// The file-name and extension conventions of a path string.
// ---------------------------------------------------------------------------

/// The part of `p` after its last `/` (empty when `p` ends in `/`).
pub open spec fn file_name_of(p: Seq<char>) -> Seq<char>
    decreases p.len(),
{
    if p.len() == 0 {
        p
    } else if p.last() == '/' {
        Seq::empty()
    } else {
        file_name_of(p.drop_last()).push(p.last())
    }
}

/// The index of the last `.` of `name` at a position past the first
/// character, or `-1` when there is none; a leading `.` alone marks a
/// hidden name, not an extension.
pub open spec fn last_dot(name: Seq<char>) -> int
    decreases name.len(),
{
    if name.len() <= 1 {
        -1
    } else if name.last() == '.' {
        name.len() - 1
    } else {
        last_dot(name.drop_last())
    }
}

/// `name` with its extension (if any) removed.
pub open spec fn stem_of(name: Seq<char>) -> Seq<char> {
    if last_dot(name) < 0 {
        name
    } else {
        name.take(last_dot(name))
    }
}

/// The published location of the document at `p`: its file name with the
/// extension replaced by `.html`, under `posts/`, or under `public/posts/`
/// when `include_dir` asks for the output directory too.
pub open spec fn public_path_of(p: Seq<char>, include_dir: bool) -> Seq<char> {
    (if include_dir {
        "public/posts/"@
    } else {
        "posts/"@
    }) + stem_of(file_name_of(p)) + ".html"@
}

/// The source location a published path points back to: its file name under
/// the content root.
pub open spec fn src_path_of(p: Seq<char>) -> Seq<char> {
    "content/"@ + file_name_of(p)
}

proof fn lemma_file_name_suffix(p: Seq<char>, j: int)
    requires
        0 <= j <= p.len(),
        forall|k: int| j <= k < p.len() ==> p[k] != '/',
        j > 0 ==> p[j - 1] == '/',
    ensures
        file_name_of(p) == p.subrange(j, p.len() as int),
    decreases p.len() - j,
{
    if p.len() == j {
        if j == 0 {
            assert(file_name_of(p) =~= p.subrange(0, 0));
        } else {
            assert(p.last() == '/');
            assert(file_name_of(p) =~= p.subrange(j, p.len() as int));
        }
    } else {
        assert(p.last() != '/');
        lemma_file_name_suffix(p.drop_last(), j);
        assert(p.subrange(j, p.len() as int) =~= p.drop_last().subrange(
            j,
            p.drop_last().len() as int,
        ).push(p.last()));
    }
}

proof fn lemma_last_dot_scan(name: Seq<char>, j: int)
    requires
        1 <= j <= name.len(),
        forall|k: int| j <= k < name.len() ==> name[k] != '.',
    ensures
        last_dot(name) == last_dot(name.take(j)),
    decreases name.len() - j,
{
    if name.len() == j {
        assert(name.take(j) =~= name);
    } else {
        assert(name.last() != '.');
        assert(name.len() > 1);
        lemma_last_dot_scan(name.drop_last(), j);
        assert(name.drop_last().take(j) =~= name.take(j));
    }
}

/// The index just past the last `/` of `chars`, scanning from the end.
fn name_start(chars: &Vec<char>) -> (r: usize)
    ensures
        r <= chars@.len(),
        file_name_of(chars@) == chars@.subrange(r as int, chars@.len() as int),
{
    let n = chars.len();
    let mut j: usize = n;
    while j > 0
        invariant
            j <= n,
            n == chars@.len(),
            forall|k: int| j <= k < n ==> chars@[k] != '/',
        decreases j,
    {
        if chars[j - 1] == '/' {
            proof {
                lemma_file_name_suffix(chars@, j as int);
            }
            return j;
        }
        j = j - 1;
    }
    proof {
        lemma_file_name_suffix(chars@, 0);
    }
    0
}

/// The index just past the stem of the name `chars[start..]`: the position of
/// its extension dot, or the end when it has no extension.
fn stem_end(chars: &Vec<char>, start: usize) -> (r: usize)
    requires
        start <= chars@.len(),
    ensures
        start <= r <= chars@.len(),
        ({
            let name = chars@.subrange(start as int, chars@.len() as int);
            stem_of(name) == chars@.subrange(start as int, r as int)
        }),
{
    let ghost name = chars@.subrange(start as int, chars@.len() as int);
    let n = chars.len();
    let mut j: usize = n;
    while j - start > 1
        invariant
            start <= j <= n,
            start <= n,
            n == chars@.len(),
            name == chars@.subrange(start as int, chars@.len() as int),
            forall|k: int| j <= k < n ==> chars@[k] != '.',
        decreases j,
    {
        if chars[j - 1] == '.' {
            proof {
                assert(name.len() == chars@.len() - start);
                assert forall|k: int| j - start <= k < name.len() implies name[k] != '.' by {
                    assert(name[k] == chars@[k + start as int]);
                    assert(chars@[k + start as int] != '.');
                }
                lemma_last_dot_scan(name, j - start);
                assert(name.take(j - start) =~= chars@.subrange(start as int, j as int));
                assert(name.take(j - start).len() > 1);
                assert(name.take(j - start).last() == chars@[j - 1]);
                assert(last_dot(name) == j - 1 - start);
                assert(stem_of(name) =~= chars@.subrange(start as int, j - 1));
            }
            return j - 1;
        }
        j = j - 1;
    }
    proof {
        if name.len() >= 2 {
            assert(name.len() == chars@.len() - start);
            assert forall|k: int| 1 <= k < name.len() implies name[k] != '.' by {
                assert(name[k] == chars@[k + start as int]);
                assert(chars@[k + start as int] != '.');
            }
            lemma_last_dot_scan(name, 1);
            assert(last_dot(name.take(1)) == -1);
        }
        assert(last_dot(name) < 0);
        assert(stem_of(name) =~= chars@.subrange(start as int, n as int));
    }
    n
}

impl SourcePath {
    /// Where the rendered form of this document is published: the file name
    /// with an `.html` extension, under the posts directory.
    pub fn to_public_path(&self, include_dir: bool) -> (r: PublicPath)
        ensures
            r@ == public_path_of(self@, include_dir),
    {
        let chars = string_to_chars(self.0.as_str());
        let start = name_start(&chars);
        let end = stem_end(&chars, start);
        let mut out: Vec<char> = Vec::new();
        if include_dir {
            append_chars(&mut out, "public/posts/");
        } else {
            append_chars(&mut out, "posts/");
        }
        let ghost prefix = out@;
        let mut k: usize = start;
        while k < end
            invariant
                start <= k <= end <= chars@.len(),
                out@ == prefix + chars@.subrange(start as int, k as int),
            decreases end - k,
        {
            out.push(chars[k]);
            proof {
                assert(chars@.subrange(start as int, k + 1) =~= chars@.subrange(
                    start as int,
                    k as int,
                ).push(chars@[k as int]));
            }
            k = k + 1;
        }
        append_chars(&mut out, ".html");
        proof {
            assert(out@ =~= public_path_of(self@, include_dir));
        }
        PublicPath(chars_to_string(&out))
    }
}

impl PublicPath {
    /// The source location this published path points back to, under the
    /// content root.
    pub fn to_src_path(&self) -> (r: SourcePath)
        ensures
            r@ == src_path_of(self@),
    {
        let chars = string_to_chars(self.0.as_str());
        let start = name_start(&chars);
        let mut out: Vec<char> = Vec::new();
        append_chars(&mut out, "content/");
        let ghost prefix = out@;
        let n = chars.len();
        let mut k: usize = start;
        while k < n
            invariant
                start <= k <= n,
                n == chars@.len(),
                out@ == prefix + chars@.subrange(start as int, k as int),
            decreases n - k,
        {
            out.push(chars[k]);
            proof {
                assert(chars@.subrange(start as int, k + 1) =~= chars@.subrange(
                    start as int,
                    k as int,
                ).push(chars@[k as int]));
            }
            k = k + 1;
        }
        proof {
            assert(out@ =~= src_path_of(self@));
        }
        SourcePath(chars_to_string(&out))
    }
}

} // verus!
