use vstd::prelude::*;

use crate::assoc::{assoc_get, assoc_map, assoc_remove, assoc_set, unique_keys};
use crate::doc::{clone_strings, Post, PostView};
use crate::error::Error;
use crate::paths::SourcePath;
use crate::render::{excerpt_markup_of, markup_of, render_markup, render_excerpt};

verus! {

/// The derivations the engine knows: rendering a document to sanitized
/// markup, extracting its category labels, and cutting its excerpt.
#[derive(Clone, Copy)]
pub enum Derivation {
    Render,
    Tags,
    Excerpt,
}

/// One derived artifact: rendered markup or a list of labels.
pub enum Artifact {
    Markup(String),
    Labels(Vec<String>),
}

/// The mathematical value of an `Artifact`.
pub ghost enum ArtifactView {
    Markup(Seq<char>),
    Labels(Seq<Seq<char>>),
}

impl DeepView for Artifact {
    type V = ArtifactView;

    open spec fn deep_view(&self) -> ArtifactView {
        match self {
            Artifact::Markup(s) => ArtifactView::Markup(s@),
            Artifact::Labels(v) => ArtifactView::Labels(v.deep_view()),
        }
    }
}

/// What a derivation computes from a document: a pure function of the
/// document's value alone.
pub open spec fn derived_value_of(d: PostView, f: Derivation) -> ArtifactView {
    match f {
        Derivation::Render => ArtifactView::Markup(markup_of(d.content)),
        Derivation::Tags => ArtifactView::Labels(d.frontmatter.tags),
        Derivation::Excerpt => ArtifactView::Markup(excerpt_markup_of(d.content)),
    }
}

/// The computation counter after one more computation; it sticks at the
/// top of its range rather than wrap.
pub open spec fn bump(c: u64) -> u64 {
    if c < u64::MAX {
        (c + 1) as u64
    } else {
        c
    }
}

fn bump_count(c: u64) -> (r: u64)
    ensures
        r == bump(c),
{
    if c < u64::MAX {
        c + 1
    } else {
        c
    }
}

/// The abstract state of the store: the documents, one memo table per
/// derivation, and how many times a derivation function has actually run.
#[verifier::ext_equal]
pub ghost struct DbView {
    pub docs: Map<Seq<char>, PostView>,
    pub html_memo: Map<Seq<char>, Seq<char>>,
    pub tags_memo: Map<Seq<char>, Seq<Seq<char>>>,
    pub excerpt_memo: Map<Seq<char>, Seq<char>>,
    pub computations: u64,
}

impl DbView {
    /// The state of a freshly constructed store.
    pub open spec fn init() -> DbView {
        DbView {
            docs: Map::empty(),
            html_memo: Map::empty(),
            tags_memo: Map::empty(),
            excerpt_memo: Map::empty(),
            computations: 0,
        }
    }

    /// Whether the memo table of derivation `f` holds an entry for `k`.
    pub open spec fn memo_has(self, f: Derivation, k: Seq<char>) -> bool {
        match f {
            Derivation::Render => self.html_memo.contains_key(k),
            Derivation::Tags => self.tags_memo.contains_key(k),
            Derivation::Excerpt => self.excerpt_memo.contains_key(k),
        }
    }

    /// Every stored document is valid and sits under its own key, and every
    /// memo entry is the derivation's value for the document now stored
    /// under its key: a memoized artifact never outlives its input.
    pub open spec fn coherent(self) -> bool {
        &&& forall|k: Seq<char>| #[trigger]
            self.docs.contains_key(k) ==> self.docs[k].wf() && self.docs[k].filename == k
        &&& forall|k: Seq<char>| #[trigger]
            self.html_memo.contains_key(k) ==> self.docs.contains_key(k) && self.html_memo[k]
                == markup_of(self.docs[k].content)
        &&& forall|k: Seq<char>| #[trigger]
            self.tags_memo.contains_key(k) ==> self.docs.contains_key(k) && self.tags_memo[k]
                == self.docs[k].frontmatter.tags
        &&& forall|k: Seq<char>| #[trigger]
            self.excerpt_memo.contains_key(k) ==> self.docs.contains_key(k)
                && self.excerpt_memo[k] == excerpt_markup_of(self.docs[k].content)
    }

    /// The state after `set(k, d)`: the document replaced, every memoized
    /// artifact for `k` cleared.
    pub open spec fn after_set(self, k: Seq<char>, d: PostView) -> DbView {
        DbView {
            docs: self.docs.insert(k, d),
            html_memo: self.html_memo.remove(k),
            tags_memo: self.tags_memo.remove(k),
            excerpt_memo: self.excerpt_memo.remove(k),
            computations: self.computations,
        }
    }

    /// The state after `derive(f, k)`: unchanged when the memo already
    /// holds `k` or no document does; otherwise the memo gains the derived
    /// value and one more computation is counted.
    pub open spec fn after_derive(self, f: Derivation, k: Seq<char>) -> DbView {
        if self.memo_has(f, k) || !self.docs.contains_key(k) {
            self
        } else {
            match f {
                Derivation::Render => DbView {
                    html_memo: self.html_memo.insert(k, markup_of(self.docs[k].content)),
                    computations: bump(self.computations),
                    ..self
                },
                Derivation::Tags => DbView {
                    tags_memo: self.tags_memo.insert(k, self.docs[k].frontmatter.tags),
                    computations: bump(self.computations),
                    ..self
                },
                Derivation::Excerpt => DbView {
                    excerpt_memo: self.excerpt_memo.insert(k, excerpt_markup_of(self.docs[k].content)),
                    computations: bump(self.computations),
                    ..self
                },
            }
        }
    }

    /// The state after inserting each document in turn under its own key.
    pub open spec fn after_add(self, ds: Seq<PostView>) -> DbView
        decreases ds.len(),
    {
        if ds.len() == 0 {
            self
        } else {
            self.after_add(ds.drop_last()).after_set(ds.last().filename, ds.last())
        }
    }
}

/// The document store and derived query engine: documents keyed by source
/// location, and one memo table per derivation. Each derivation runs at
/// most once per stored document value; replacing a document clears its
/// memoized artifacts.
pub struct PostsDatabase {
    posts: Vec<(SourcePath, Post)>,
    html_cache: Vec<(SourcePath, String)>,
    tags_cache: Vec<(SourcePath, Vec<String>)>,
    excerpt_cache: Vec<(SourcePath, String)>,
    computations: u64,
}

impl View for PostsDatabase {
    type V = DbView;

    closed spec fn view(&self) -> DbView {
        DbView {
            docs: assoc_map(self.posts@),
            html_memo: assoc_map(self.html_cache@),
            tags_memo: assoc_map(self.tags_cache@),
            excerpt_memo: assoc_map(self.excerpt_cache@),
            computations: self.computations,
        }
    }
}

impl PostsDatabase {
    /// The store's representation keeps one entry per key, and its abstract
    /// state is coherent.
    pub closed spec fn wf(&self) -> bool {
        &&& unique_keys(self.posts@)
        &&& unique_keys(self.html_cache@)
        &&& unique_keys(self.tags_cache@)
        &&& unique_keys(self.excerpt_cache@)
        &&& self@.coherent()
    }

    /// A fresh, empty store.
    pub fn new() -> (r: Self)
        ensures
            r.wf(),
            r@ == DbView::init(),
    {
        let r = PostsDatabase {
            posts: Vec::new(),
            html_cache: Vec::new(),
            tags_cache: Vec::new(),
            excerpt_cache: Vec::new(),
            computations: 0,
        };
        proof {
            assert(r@ =~~= DbView::init());
        }
        r
    }

    /// How many times a derivation function has actually run: the probe
    /// that makes memoization observable.
    pub fn computations(&self) -> (r: u64)
        ensures
            r == self@.computations,
    {
        self.computations
    }

    /// Inserts or replaces the document at `key`, clearing every memoized
    /// artifact for that key: a derivation's output is only valid for the
    /// exact input it was computed from.
    pub fn set(&mut self, key: SourcePath, doc: Post)
        requires
            old(self).wf(),
            doc.wf(),
            doc.filename@ == key@,
        ensures
            final(self).wf(),
            final(self)@ == old(self)@.after_set(key@, doc.deep_view()),
    {
        let ghost k = key@;
        let ghost dv = doc.deep_view();
        assoc_remove(&mut self.html_cache, &key);
        assoc_remove(&mut self.tags_cache, &key);
        assoc_remove(&mut self.excerpt_cache, &key);
        assoc_set(&mut self.posts, key, doc);
        proof {
            assert(self@ =~~= old(self)@.after_set(k, dv));
        }
    }

    /// The current document at `key`, as a defensive copy; fails with
    /// `NotFound` when no document has been set there.
    pub fn get(&self, key: &SourcePath) -> (r: Result<Post, Error>)
        requires
            self.wf(),
        ensures
            match r {
                Ok(p) => self@.docs.contains_key(key@) && p.deep_view() == self@.docs[key@]
                    && p.wf(),
                Err(e) => !self@.docs.contains_key(key@) && (e matches Error::NotFound {
                    key: ek,
                } && ek@ == key@),
            },
    {
        match assoc_get(&self.posts, key) {
            Some(p) => Ok(p.clone()),
            None => Err(Error::NotFound { key: key.clone() }),
        }
    }

    /// The memoized sanitized rendering of the document at `key`. The first
    /// call for a stored document renders it; later calls return the stored
    /// artifact without recomputation until the document is replaced.
    pub fn to_html(&mut self, key: &SourcePath) -> (r: Result<String, Error>)
        requires
            old(self).wf(),
        ensures
            final(self).wf(),
            final(self)@ == old(self)@.after_derive(Derivation::Render, key@),
            match r {
                Ok(h) => old(self)@.docs.contains_key(key@) && h@ == markup_of(
                    old(self)@.docs[key@].content,
                ),
                Err(e) => !old(self)@.docs.contains_key(key@) && (e matches Error::NotFound {
                    key: ek,
                } && ek@ == key@),
            },
    {
        match assoc_get(&self.html_cache, key) {
            Some(h) => {
                let r = h.clone();
                Ok(r)
            },
            None => {
                match assoc_get(&self.posts, key) {
                    Some(p) => {
                        let html = render_markup(p.content.as_str());
                        let out = html.clone();
                        assoc_set(&mut self.html_cache, key.clone(), html);
                        self.computations = bump_count(self.computations);
                        proof {
                            assert(self@ =~~= old(self)@.after_derive(Derivation::Render, key@));
                        }
                        Ok(out)
                    },
                    None => Err(Error::NotFound { key: key.clone() }),
                }
            },
        }
    }

    /// The memoized category labels of the document at `key`, under the
    /// same memoization discipline as `to_html`.
    pub fn tags(&mut self, key: &SourcePath) -> (r: Result<Vec<String>, Error>)
        requires
            old(self).wf(),
        ensures
            final(self).wf(),
            final(self)@ == old(self)@.after_derive(Derivation::Tags, key@),
            match r {
                Ok(ts) => old(self)@.docs.contains_key(key@) && ts.deep_view()
                    == old(self)@.docs[key@].frontmatter.tags,
                Err(e) => !old(self)@.docs.contains_key(key@) && (e matches Error::NotFound {
                    key: ek,
                } && ek@ == key@),
            },
    {
        match assoc_get(&self.tags_cache, key) {
            Some(ts) => {
                let r = clone_strings(ts);
                Ok(r)
            },
            None => {
                match assoc_get(&self.posts, key) {
                    Some(p) => {
                        let ts = clone_strings(&p.frontmatter.tags);
                        let out = clone_strings(&ts);
                        assoc_set(&mut self.tags_cache, key.clone(), ts);
                        self.computations = bump_count(self.computations);
                        proof {
                            assert(self@ =~~= old(self)@.after_derive(Derivation::Tags, key@));
                        }
                        Ok(out)
                    },
                    None => Err(Error::NotFound { key: key.clone() }),
                }
            },
        }
    }

    /// The memoized excerpt paragraph of the document at `key`, under the
    /// same memoization discipline as `to_html`.
    pub fn excerpt(&mut self, key: &SourcePath) -> (r: Result<String, Error>)
        requires
            old(self).wf(),
        ensures
            final(self).wf(),
            final(self)@ == old(self)@.after_derive(Derivation::Excerpt, key@),
            match r {
                Ok(h) => old(self)@.docs.contains_key(key@) && h@ == excerpt_markup_of(
                    old(self)@.docs[key@].content,
                ),
                Err(e) => !old(self)@.docs.contains_key(key@) && (e matches Error::NotFound {
                    key: ek,
                } && ek@ == key@),
            },
    {
        match assoc_get(&self.excerpt_cache, key) {
            Some(h) => {
                let r = h.clone();
                Ok(r)
            },
            None => {
                match assoc_get(&self.posts, key) {
                    Some(p) => {
                        let excerpt = render_excerpt(p.content.as_str());
                        let out = excerpt.clone();
                        assoc_set(&mut self.excerpt_cache, key.clone(), excerpt);
                        self.computations = bump_count(self.computations);
                        proof {
                            assert(self@ =~~= old(self)@.after_derive(Derivation::Excerpt, key@));
                        }
                        Ok(out)
                    },
                    None => Err(Error::NotFound { key: key.clone() }),
                }
            },
        }
    }

    /// The memoized artifact of derivation `f` for the document at `key`.
    pub fn derive(&mut self, f: Derivation, key: &SourcePath) -> (r: Result<Artifact, Error>)
        requires
            old(self).wf(),
        ensures
            final(self).wf(),
            final(self)@ == old(self)@.after_derive(f, key@),
            match r {
                Ok(a) => old(self)@.docs.contains_key(key@) && a.deep_view() == derived_value_of(
                    old(self)@.docs[key@],
                    f,
                ),
                Err(e) => !old(self)@.docs.contains_key(key@) && (e matches Error::NotFound {
                    key: ek,
                } && ek@ == key@),
            },
    {
        match f {
            Derivation::Render => match self.to_html(key) {
                Ok(h) => Ok(Artifact::Markup(h)),
                Err(e) => Err(e),
            },
            Derivation::Tags => match self.tags(key) {
                Ok(ts) => Ok(Artifact::Labels(ts)),
                Err(e) => Err(e),
            },
            Derivation::Excerpt => match self.excerpt(key) {
                Ok(h) => Ok(Artifact::Markup(h)),
                Err(e) => Err(e),
            },
        }
    }

    /// Inserts each document in turn under its own identity key.
    pub fn add_posts(&mut self, posts: Vec<Post>)
        requires
            old(self).wf(),
            forall|i: int| 0 <= i < posts@.len() ==> (#[trigger] posts@[i]).wf(),
        ensures
            final(self).wf(),
            final(self)@ == old(self)@.after_add(posts.deep_view()),
    {
        let ghost dv = posts.deep_view();
        let mut i: usize = 0;
        proof {
            assert(old(self)@.after_add(dv.take(0)) =~~= old(self)@);
        }
        while i < posts.len()
            invariant
                i <= posts@.len(),
                dv == posts.deep_view(),
                dv.len() == posts@.len(),
                forall|j: int| 0 <= j < posts@.len() ==> (#[trigger] posts@[j]).wf(),
                self.wf(),
                self@ == old(self)@.after_add(dv.take(i as int)),
            decreases posts@.len() - i,
        {
            let p = posts[i].clone();
            let key = p.filename.clone();
            proof {
                assert(posts@[i as int].wf());
                assert(dv[i as int] == posts@[i as int].deep_view());
                assert(p.deep_view() == dv[i as int]);
                assert(p.wf());
            }
            self.set(key, p);
            proof {
                assert(dv.take(i + 1).drop_last() =~= dv.take(i as int));
                assert(dv.take(i + 1).last() == dv[i as int]);
            }
            i = i + 1;
        }
        proof {
            assert(dv.take(dv.len() as int) =~= dv);
        }
    }
}

// ---------------------------------------------------------------------------
// The memoization discipline, stated over the abstract state.
// ---------------------------------------------------------------------------

/// After `set(k, d)`, the store holds exactly `d` at `k`.
pub proof fn lemma_set_then_get(s: DbView, k: Seq<char>, d: PostView)
    ensures
        s.after_set(k, d).docs.contains_key(k),
        s.after_set(k, d).docs[k] == d,
{
}

/// Deriving twice without an intervening `set` is idempotent: the second
/// call leaves the state — the computation count included — exactly as the
/// first left it, and both calls read the same document, so they yield
/// value-equal artifacts.
pub proof fn lemma_derive_idempotent(s: DbView, f: Derivation, k: Seq<char>)
    ensures
        s.after_derive(f, k).docs == s.docs,
        s.after_derive(f, k).after_derive(f, k) == s.after_derive(f, k),
        s.docs.contains_key(k) ==> s.after_derive(f, k).memo_has(f, k),
        s.docs.contains_key(k) ==> derived_value_of(s.after_derive(f, k).docs[k], f)
            == derived_value_of(s.docs[k], f),
{
}

/// Replacing the document under `k` invalidates: the memo entry for `k` is
/// gone, and the next derivation computes from the new document, never from
/// a stale artifact of the old one.
pub proof fn lemma_set_invalidates(s: DbView, f: Derivation, k: Seq<char>, d1: PostView, d2: PostView)
    ensures
        ({
            let derived_from_d1 = s.after_set(k, d1).after_derive(f, k);
            let replaced = derived_from_d1.after_set(k, d2);
            &&& !replaced.memo_has(f, k)
            &&& replaced.docs[k] == d2
            &&& derived_value_of(replaced.docs[k], f) == derived_value_of(d2, f)
            &&& replaced.after_derive(f, k).memo_has(f, k)
        }),
{
}

/// A derivation on an unset key changes nothing: no cache entry is ever
/// recorded for a failed attempt.
pub proof fn lemma_derive_missing(s: DbView, f: Derivation, k: Seq<char>)
    requires
        s.coherent(),
        !s.docs.contains_key(k),
    ensures
        s.after_derive(f, k) == s,
        !s.after_derive(f, k).memo_has(f, k),
{
}

} // verus!
