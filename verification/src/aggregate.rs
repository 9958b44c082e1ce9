use vstd::prelude::*;

use crate::doc::{Post, PostView};
use crate::paths::SourcePath;
use crate::store::{DbView, PostsDatabase};
use crate::text::{lemma_lex_le_antisym, lemma_lex_le_total, lemma_lex_le_trans, lex_le, str_lex_le};

verus! {

// ---------------------------------------------------------------------------
// Read-only aggregation over the full document set: recency ranking.
// ---------------------------------------------------------------------------

/// The documents the keys denote, in key order.
pub open spec fn docs_seq(docs: Map<Seq<char>, PostView>, keys: Seq<Seq<char>>) -> Seq<PostView> {
    Seq::new(keys.len(), |i: int| docs[keys[i]])
}

/// `a` ranks at least as high as `b`: published later, or at the same
/// instant with a key that is not lexicographically later — the
/// deterministic tie-break.
pub open spec fn ranked_ge(a: PostView, b: PostView) -> bool {
    ||| a.frontmatter.date.secs > b.frontmatter.date.secs
    ||| (a.frontmatter.date.secs == b.frontmatter.date.secs && lex_le(a.filename, b.filename))
}

/// The ranking order is total.
pub proof fn lemma_ranked_ge_total(a: PostView, b: PostView)
    ensures
        ranked_ge(a, b) || ranked_ge(b, a),
{
    lemma_lex_le_total(a.filename, b.filename);
}

/// The ranking order is transitive.
pub proof fn lemma_ranked_ge_trans(a: PostView, b: PostView, c: PostView)
    requires
        ranked_ge(a, b),
        ranked_ge(b, c),
    ensures
        ranked_ge(a, c),
{
    if a.frontmatter.date.secs == b.frontmatter.date.secs && b.frontmatter.date.secs
        == c.frontmatter.date.secs {
        lemma_lex_le_trans(a.filename, b.filename, c.filename);
    }
}

/// The ranking order is antisymmetric up to the file name: two documents
/// each ranked at least as high as the other share their publish instant
/// and their file name.
pub proof fn lemma_ranked_ge_antisym(a: PostView, b: PostView)
    requires
        ranked_ge(a, b),
        ranked_ge(b, a),
    ensures
        a.frontmatter.date.secs == b.frontmatter.date.secs,
        a.filename == b.filename,
{
    lemma_lex_le_antisym(a.filename, b.filename);
}

/// Non-increasing rank order.
pub open spec fn sorted_by_rank(s: Seq<PostView>) -> bool {
    forall|i: int, j: int| 0 <= i < j < s.len() ==> ranked_ge(#[trigger] s[i], #[trigger] s[j])
}

/// No two distinct documents among `s` share a file name.
pub open spec fn distinct_filenames(s: Seq<PostView>) -> bool {
    forall|i: int, j: int| #![trigger s[i], s[j]]
        0 <= i < s.len() && 0 <= j < s.len() && s[i].filename == s[j].filename ==> s[i] == s[j]
}

/// A rank-sorted arrangement of given documents is unique when no two
/// distinct documents share a file name: the key tie-break leaves the
/// order no freedom. So a contract that fixes a result's length, its rank
/// sortedness and which documents it holds — as `most_recent`'s does —
/// pins the result itself, independent of the order the keys were given
/// in.
pub proof fn lemma_rank_sorted_unique(a: Seq<PostView>, b: Seq<PostView>)
    requires
        sorted_by_rank(a),
        sorted_by_rank(b),
        a.to_multiset() == b.to_multiset(),
        distinct_filenames(a),
    ensures
        a == b,
    decreases a.len(),
{
    broadcast use vstd::seq_lib::group_to_multiset_ensures;

    assert(a.len() == a.to_multiset().len());
    assert(b.len() == b.to_multiset().len());
    if a.len() == 0 {
        assert(a =~= b);
    } else {
        assert(b.contains(b[0]));
        assert(a.to_multiset().count(b[0]) > 0);
        assert(a.contains(b[0]));
        let i = choose|i: int| 0 <= i < a.len() && a[i] == b[0];
        assert(a.contains(a[0]));
        assert(b.to_multiset().count(a[0]) > 0);
        assert(b.contains(a[0]));
        let j = choose|j: int| 0 <= j < b.len() && b[j] == a[0];
        assert(ranked_ge(a[0], b[0])) by {
            if i > 0 {
                assert(ranked_ge(a[0], a[i]));
            } else {
                lemma_lex_le_total(a[0].filename, a[0].filename);
            }
        }
        assert(ranked_ge(b[0], a[0])) by {
            if j > 0 {
                assert(ranked_ge(b[0], b[j]));
            } else {
                lemma_lex_le_total(b[0].filename, b[0].filename);
            }
        }
        lemma_ranked_ge_antisym(a[0], b[0]);
        assert(a[i].filename == a[0].filename);
        assert(a[i] == a[0]);
        assert(a[0] == b[0]);
        let ta = a.drop_first();
        let tb = b.drop_first();
        assert(a.remove(0) =~= ta);
        assert(b.remove(0) =~= tb);
        assert(a.remove(0).to_multiset() =~= a.to_multiset().remove(a[0]));
        assert(b.remove(0).to_multiset() =~= b.to_multiset().remove(b[0]));
        assert(ta.to_multiset() == tb.to_multiset());
        assert forall|x: int, y: int| 0 <= x < y < ta.len() implies ranked_ge(
            #[trigger] ta[x],
            #[trigger] ta[y],
        ) by {
            assert(ta[x] == a[x + 1]);
            assert(ta[y] == a[y + 1]);
        }
        assert forall|x: int, y: int| 0 <= x < y < tb.len() implies ranked_ge(
            #[trigger] tb[x],
            #[trigger] tb[y],
        ) by {
            assert(tb[x] == b[x + 1]);
            assert(tb[y] == b[y + 1]);
        }
        assert forall|x: int, y: int| #![trigger ta[x], ta[y]]
            0 <= x < ta.len() && 0 <= y < ta.len() && ta[x].filename == ta[y].filename implies ta[x]
            == ta[y] by {
            assert(ta[x] == a[x + 1]);
            assert(ta[y] == a[y + 1]);
        }
        lemma_rank_sorted_unique(ta, tb);
        assert forall|x: int| 0 <= x < a.len() implies a[x] == b[x] by {
            if x > 0 {
                assert(a[x] == ta[x - 1]);
                assert(b[x] == tb[x - 1]);
            }
        }
        assert(a =~= b);
    }
}

/// In a coherent store every document sits under its own key, so the
/// documents a key list names never pair two distinct documents with one
/// file name: the hypothesis under which rank-sorted selections are
/// unique.
pub proof fn lemma_docs_seq_distinct_filenames(s: DbView, keys: Seq<Seq<char>>)
    requires
        s.coherent(),
        forall|i: int| 0 <= i < keys.len() ==> s.docs.contains_key(#[trigger] keys[i]),
    ensures
        distinct_filenames(docs_seq(s.docs, keys)),
{
    let pool = docs_seq(s.docs, keys);
    assert forall|i: int, j: int| #![trigger pool[i], pool[j]]
        0 <= i < pool.len() && 0 <= j < pool.len() && pool[i].filename == pool[j].filename
        implies pool[i] == pool[j] by {
        assert(pool[i] == s.docs[keys[i]]);
        assert(pool[j] == s.docs[keys[j]]);
        assert(pool[i].filename == keys[i]);
        assert(pool[j].filename == keys[j]);
    }
}

/// Decides the ranking order on two documents.
fn ranked_ge_exec(a: &Post, b: &Post) -> (r: bool)
    ensures
        r == ranked_ge(a.deep_view(), b.deep_view()),
{
    if a.frontmatter.date.secs > b.frontmatter.date.secs {
        true
    } else if a.frontmatter.date.secs == b.frontmatter.date.secs {
        str_lex_le(a.filename.0.as_str(), b.filename.0.as_str())
    } else {
        false
    }
}

/// The index of a highest-ranked document in a non-empty pool.
fn select_best(pool: &Vec<Post>) -> (r: usize)
    requires
        pool@.len() > 0,
    ensures
        r < pool@.len(),
        forall|k: int| 0 <= k < pool@.len() ==> ranked_ge(
            pool@[r as int].deep_view(),
            (#[trigger] pool@[k]).deep_view(),
        ),
{
    let mut best: usize = 0;
    let mut j: usize = 1;
    proof {
        lemma_ranked_ge_total(pool@[0].deep_view(), pool@[0].deep_view());
    }
    while j < pool.len()
        invariant
            best < j <= pool@.len() || (best == 0 && j <= pool@.len()),
            best < pool@.len(),
            forall|k: int| 0 <= k < j ==> ranked_ge(
                pool@[best as int].deep_view(),
                (#[trigger] pool@[k]).deep_view(),
            ),
        decreases pool@.len() - j,
    {
        if ranked_ge_exec(&pool[j], &pool[best]) {
            proof {
                assert forall|k: int| 0 <= k < j + 1 implies ranked_ge(
                    pool@[j as int].deep_view(),
                    (#[trigger] pool@[k]).deep_view(),
                ) by {
                    if k < j {
                        lemma_ranked_ge_trans(
                            pool@[j as int].deep_view(),
                            pool@[best as int].deep_view(),
                            pool@[k].deep_view(),
                        );
                    } else {
                        lemma_ranked_ge_total(pool@[j as int].deep_view(), pool@[j as int].deep_view());
                    }
                }
            }
            best = j;
        } else {
            proof {
                lemma_ranked_ge_total(pool@[j as int].deep_view(), pool@[best as int].deep_view());
            }
        }
        j = j + 1;
    }
    best
}

impl PostsDatabase {
    /// The `n` most recent of the documents under `keys` (all of them when
    /// fewer exist), in non-increasing rank order: descending publish
    /// instant, ties broken by ascending key. The result is a
    /// highest-ranked selection: every document left out ranks no higher
    /// than any document returned. By `lemma_rank_sorted_unique` (with
    /// `lemma_docs_seq_distinct_filenames`), these clauses admit exactly
    /// one result, so the selection does not depend on the order of
    /// `keys`.
    pub fn most_recent(&self, n: usize, keys: &Vec<SourcePath>) -> (r: Vec<Post>)
        requires
            self.wf(),
            forall|i: int| 0 <= i < keys@.len() ==> self@.docs.contains_key(
                (#[trigger] keys@[i])@,
            ),
        ensures
            ({
                let full = docs_seq(self@.docs, keys.deep_view());
                &&& r@.len() == if n <= keys@.len() {
                    n as int
                } else {
                    keys@.len() as int
                }
                &&& sorted_by_rank(r.deep_view())
                &&& exists|rest: Seq<PostView>|
                    {
                        &&& r.deep_view().to_multiset().add(rest.to_multiset())
                            == full.to_multiset()
                        &&& forall|a: int, b: int|
                            0 <= a < r.deep_view().len() && 0 <= b < rest.len() ==> ranked_ge(
                                #[trigger] r.deep_view()[a],
                                #[trigger] rest[b],
                            )
                    }
            }),
    {
        broadcast use vstd::seq_lib::group_to_multiset_ensures;

        let ghost kd = keys.deep_view();
        let ghost full = docs_seq(self@.docs, kd);
        let mut pool: Vec<Post> = Vec::new();
        let mut i: usize = 0;
        while i < keys.len()
            invariant
                i <= keys@.len(),
                kd == keys.deep_view(),
                kd.len() == keys@.len(),
                self.wf(),
                full == docs_seq(self@.docs, kd),
                forall|t: int| 0 <= t < keys@.len() ==> self@.docs.contains_key(
                    (#[trigger] keys@[t])@,
                ),
                pool@.len() == i,
                forall|t: int| 0 <= t < i ==> (#[trigger] pool@[t]).deep_view() == full[t],
            decreases keys@.len() - i,
        {
            match self.get(&keys[i]) {
                Ok(p) => {
                    proof {
                        assert(kd[i as int] == keys@[i as int]@);
                        assert(full[i as int] == self@.docs[kd[i as int]]);
                    }
                    pool.push(p);
                },
                Err(_) => {
                    proof {
                        assert(false);
                    }
                    return Vec::new();
                },
            }
            i = i + 1;
        }
        proof {
            assert(pool.deep_view() =~= full);
        }
        let count = if n <= pool.len() {
            n
        } else {
            pool.len()
        };
        let mut out: Vec<Post> = Vec::new();
        proof {
            assert(out.deep_view().to_multiset().add(pool.deep_view().to_multiset())
                =~= full.to_multiset());
        }
        while out.len() < count
            invariant
                count <= full.len(),
                out@.len() + pool@.len() == full.len(),
                out@.len() <= count,
                out.deep_view().to_multiset().add(pool.deep_view().to_multiset())
                    == full.to_multiset(),
                sorted_by_rank(out.deep_view()),
                forall|a: int, b: int|
                    0 <= a < out@.len() && 0 <= b < pool@.len() ==> ranked_ge(
                        (#[trigger] out@[a]).deep_view(),
                        (#[trigger] pool@[b]).deep_view(),
                    ),
            decreases count - out@.len(),
        {
            broadcast use vstd::seq_lib::group_to_multiset_ensures;

            let best = select_best(&pool);
            let ghost prev_out = out@;
            let ghost prev_pool = pool@;
            let ghost prev_outd = out.deep_view();
            let ghost prev_poold = pool.deep_view();
            let chosen = pool.remove(best);
            out.push(chosen);
            proof {
                assert(out@.drop_last() =~= prev_out);
                assert(pool@ =~= prev_pool.remove(best as int));
                // The new element keeps the order: it ranks below everything
                // already chosen, and above everything still in the pool.
                assert forall|a: int, b: int|
                    0 <= a < out@.len() && 0 <= b < pool@.len() implies ranked_ge(
                    (#[trigger] out@[a]).deep_view(),
                    (#[trigger] pool@[b]).deep_view(),
                ) by {
                    assert(pool@[b] == if b < best {
                        prev_pool[b]
                    } else {
                        prev_pool[b + 1]
                    });
                    if a < out@.len() - 1 {
                        assert(out@[a] == prev_out[a]);
                    } else {
                        assert(out@[a] == prev_pool[best as int]);
                    }
                }
                assert forall|i2: int, j2: int|
                    0 <= i2 < j2 < out.deep_view().len() implies ranked_ge(
                    #[trigger] out.deep_view()[i2],
                    #[trigger] out.deep_view()[j2],
                ) by {
                    assert(out@[i2].deep_view() == out.deep_view()[i2]);
                    assert(out@[j2].deep_view() == out.deep_view()[j2]);
                    if j2 < out@.len() - 1 {
                        assert(out@[i2] == prev_out[i2]);
                        assert(out@[j2] == prev_out[j2]);
                        assert(prev_out[i2].deep_view() == prev_outd[i2]);
                        assert(prev_out[j2].deep_view() == prev_outd[j2]);
                    } else {
                        assert(out@[j2] == prev_pool[best as int]);
                        assert(out@[i2] == prev_out[i2]);
                    }
                }
                // Multisets: moving one element across keeps the union.
                let cd = prev_pool[best as int].deep_view();
                assert(out.deep_view() =~= prev_outd.push(cd));
                assert(pool.deep_view() =~= prev_poold.remove(best as int));
                assert(prev_poold[best as int] == cd);
                assert(out.deep_view().to_multiset() =~= prev_outd.to_multiset().insert(cd));
                assert(pool.deep_view().to_multiset() =~= prev_poold.to_multiset().remove(cd));
                assert(prev_poold.to_multiset().count(cd) > 0);
                assert(out.deep_view().to_multiset().add(pool.deep_view().to_multiset())
                    =~= full.to_multiset());
            }
        }
        proof {
            let rest = pool.deep_view();
            assert(out.deep_view().to_multiset().add(rest.to_multiset()) == full.to_multiset());
        }
        out
    }

    /// The five most recent documents, the front page's selection.
    pub fn five_most_recent(&self, keys: &Vec<SourcePath>) -> (r: Vec<Post>)
        requires
            self.wf(),
            forall|i: int| 0 <= i < keys@.len() ==> self@.docs.contains_key(
                (#[trigger] keys@[i])@,
            ),
        ensures
            ({
                let full = docs_seq(self@.docs, keys.deep_view());
                &&& r@.len() == if 5 <= keys@.len() {
                    5int
                } else {
                    keys@.len() as int
                }
                &&& sorted_by_rank(r.deep_view())
                &&& exists|rest: Seq<PostView>|
                    {
                        &&& r.deep_view().to_multiset().add(rest.to_multiset())
                            == full.to_multiset()
                        &&& forall|a: int, b: int|
                            0 <= a < r.deep_view().len() && 0 <= b < rest.len() ==> ranked_ge(
                                #[trigger] r.deep_view()[a],
                                #[trigger] rest[b],
                            )
                    }
            }),
    {
        self.most_recent(5, keys)
    }
}

} // verus!

verus! {

// ---------------------------------------------------------------------------
// Grouping by category label.
// ---------------------------------------------------------------------------

/// How many times label `t` occurs among `tags`.
pub open spec fn count_label(tags: Seq<Seq<char>>, t: Seq<char>) -> nat
    decreases tags.len(),
{
    if tags.len() == 0 {
        0
    } else {
        count_label(tags.drop_last(), t) + if tags.last() == t {
            1nat
        } else {
            0nat
        }
    }
}

/// `c` copies of one document.
pub open spec fn repeat_doc(d: PostView, c: nat) -> Seq<PostView> {
    Seq::new(c, |x: int| d)
}

/// The group of label `t`: each document in order, once per occurrence of
/// `t` among its labels — so a document listing a label twice is counted
/// twice, and one with no labels joins no group.
pub open spec fn group_of(docs: Seq<PostView>, t: Seq<char>) -> Seq<PostView>
    decreases docs.len(),
{
    if docs.len() == 0 {
        Seq::empty()
    } else {
        group_of(docs.drop_last(), t) + repeat_doc(
            docs.last(),
            count_label(docs.last().frontmatter.tags, t),
        )
    }
}

/// A label is absent exactly when its count is zero.
pub proof fn lemma_count_label_zero(tags: Seq<Seq<char>>, t: Seq<char>)
    ensures
        (count_label(tags, t) == 0) <==> !tags.contains(t),
    decreases tags.len(),
{
    if tags.len() > 0 {
        lemma_count_label_zero(tags.drop_last(), t);
        if tags.last() == t {
            assert(tags.contains(t));
        } else {
            if tags.contains(t) {
                let i = choose|i: int| 0 <= i < tags.len() && tags[i] == t;
                assert(tags.drop_last()[i] == t);
                assert(tags.drop_last().contains(t));
            }
            if tags.drop_last().contains(t) {
                let i = choose|i: int| 0 <= i < tags.drop_last().len() && tags.drop_last()[i] == t;
                assert(tags[i] == t);
            }
        }
    }
}

/// A label carried by none of the documents has an empty group.
pub proof fn lemma_group_of_absent(docs: Seq<PostView>, t: Seq<char>)
    requires
        forall|i: int| 0 <= i < docs.len() ==> !(#[trigger] docs[i]).frontmatter.tags.contains(t),
    ensures
        group_of(docs, t) == Seq::<PostView>::empty(),
    decreases docs.len(),
{
    if docs.len() > 0 {
        assert forall|i: int| 0 <= i < docs.drop_last().len() implies !(#[trigger] docs.drop_last()[i]).frontmatter.tags.contains(t) by {
            assert(docs.drop_last()[i] == docs[i]);
        }
        lemma_group_of_absent(docs.drop_last(), t);
        assert(!docs.last().frontmatter.tags.contains(t));
        lemma_count_label_zero(docs.last().frontmatter.tags, t);
        assert(group_of(docs, t) =~= Seq::<PostView>::empty());
    }
}

/// Every member of a label's group carries that label: a document with no
/// labels appears in no group.
pub proof fn lemma_group_member_labelled(docs: Seq<PostView>, t: Seq<char>, x: PostView)
    requires
        group_of(docs, t).contains(x),
    ensures
        x.frontmatter.tags.contains(t),
    decreases docs.len(),
{
    if docs.len() > 0 {
        let g = group_of(docs, t);
        let front = group_of(docs.drop_last(), t);
        let c = count_label(docs.last().frontmatter.tags, t);
        let i = choose|i: int| 0 <= i < g.len() && g[i] == x;
        if i < front.len() {
            assert(front[i] == x);
            assert(front.contains(x));
            lemma_group_member_labelled(docs.drop_last(), t, x);
        } else {
            assert(g[i] == repeat_doc(docs.last(), c)[i - front.len()]);
            assert(x == docs.last());
            assert(c > 0);
            lemma_count_label_zero(docs.last().frontmatter.tags, t);
        }
    }
}

} // verus!

verus! {

// ---------------------------------------------------------------------------
// The grouping count law: over any distinct label list covering every label
// the documents carry, the group sizes sum to the documents' label
// occurrences — each document counted once per label it lists.
// ---------------------------------------------------------------------------

/// No two labels are equal.
pub open spec fn distinct_labels(labels: Seq<Seq<char>>) -> bool {
    forall|i: int, j: int| 0 <= i < j < labels.len() ==> labels[i] != labels[j]
}

/// The total number of label occurrences across the documents.
pub open spec fn sum_label_counts(docs: Seq<PostView>) -> nat
    decreases docs.len(),
{
    if docs.len() == 0 {
        0
    } else {
        sum_label_counts(docs.drop_last()) + docs.last().frontmatter.tags.len()
    }
}

/// The total size of the groups of the given labels.
pub open spec fn sum_group_lens(docs: Seq<PostView>, labels: Seq<Seq<char>>) -> nat
    decreases labels.len(),
{
    if labels.len() == 0 {
        0
    } else {
        sum_group_lens(docs, labels.drop_last()) + group_of(docs, labels.last()).len()
    }
}

/// The occurrences of each label of `labels` among `tags`, summed.
pub open spec fn sum_counts_over_labels(labels: Seq<Seq<char>>, tags: Seq<Seq<char>>) -> nat
    decreases labels.len(),
{
    if labels.len() == 0 {
        0
    } else {
        sum_counts_over_labels(labels.drop_last(), tags) + count_label(tags, labels.last())
    }
}

/// In a distinct label list, a label it contains occurs exactly once.
proof fn lemma_count_distinct(labels: Seq<Seq<char>>, t: Seq<char>)
    requires
        distinct_labels(labels),
        labels.contains(t),
    ensures
        count_label(labels, t) == 1,
    decreases labels.len(),
{
    assert(labels.len() > 0);
    assert forall|i: int, j: int| 0 <= i < j < labels.drop_last().len() implies labels.drop_last()[i]
        != labels.drop_last()[j] by {
        assert(labels.drop_last()[i] == labels[i]);
        assert(labels.drop_last()[j] == labels[j]);
    }
    if labels.last() == t {
        if labels.drop_last().contains(t) {
            let i = choose|i: int| 0 <= i < labels.drop_last().len() && labels.drop_last()[i] == t;
            assert(labels[i] == t);
            assert(labels[labels.len() - 1] == t);
            assert(false);
        }
        lemma_count_label_zero(labels.drop_last(), t);
    } else {
        let i = choose|i: int| 0 <= i < labels.len() && labels[i] == t;
        assert(labels.drop_last()[i] == t);
        assert(labels.drop_last().contains(t));
        lemma_count_distinct(labels.drop_last(), t);
    }
}

/// Summing over the labels and adding one tag at the end adds that tag's
/// occurrence count among the labels.
proof fn lemma_sum_counts_step(labels: Seq<Seq<char>>, tags: Seq<Seq<char>>)
    requires
        tags.len() > 0,
    ensures
        sum_counts_over_labels(labels, tags) == sum_counts_over_labels(labels, tags.drop_last())
            + count_label(labels, tags.last()),
    decreases labels.len(),
{
    if labels.len() > 0 {
        lemma_sum_counts_step(labels.drop_last(), tags);
    }
}

/// Over empty tags every count is zero.
proof fn lemma_sum_counts_empty(labels: Seq<Seq<char>>)
    ensures
        sum_counts_over_labels(labels, Seq::<Seq<char>>::empty()) == 0,
    decreases labels.len(),
{
    if labels.len() > 0 {
        lemma_sum_counts_empty(labels.drop_last());
    }
}

/// Over a distinct label list that contains every tag, the per-label
/// occurrence counts of a tag list sum to its length.
proof fn lemma_sum_counts_all(labels: Seq<Seq<char>>, tags: Seq<Seq<char>>)
    requires
        distinct_labels(labels),
        forall|j: int| 0 <= j < tags.len() ==> labels.contains(#[trigger] tags[j]),
    ensures
        sum_counts_over_labels(labels, tags) == tags.len(),
    decreases tags.len(),
{
    if tags.len() == 0 {
        lemma_sum_counts_empty(labels);
        assert(tags =~= Seq::<Seq<char>>::empty());
    } else {
        lemma_sum_counts_step(labels, tags);
        assert forall|j: int| 0 <= j < tags.drop_last().len() implies labels.contains(
            #[trigger] tags.drop_last()[j],
        ) by {
            assert(tags.drop_last()[j] == tags[j]);
        }
        lemma_sum_counts_all(labels, tags.drop_last());
        assert(labels.contains(tags[tags.len() - 1]));
        lemma_count_distinct(labels, tags.last());
    }
}

/// Appending one document adds its per-label counts to every group.
proof fn lemma_sum_group_lens_step(docs: Seq<PostView>, labels: Seq<Seq<char>>)
    requires
        docs.len() > 0,
    ensures
        sum_group_lens(docs, labels) == sum_group_lens(docs.drop_last(), labels)
            + sum_counts_over_labels(labels, docs.last().frontmatter.tags),
    decreases labels.len(),
{
    if labels.len() > 0 {
        lemma_sum_group_lens_step(docs, labels.drop_last());
        assert(group_of(docs, labels.last()).len() == group_of(docs.drop_last(), labels.last()).len()
            + count_label(docs.last().frontmatter.tags, labels.last()));
    }
}

/// With no documents every group is empty.
proof fn lemma_sum_group_lens_empty(labels: Seq<Seq<char>>)
    ensures
        sum_group_lens(Seq::<PostView>::empty(), labels) == 0,
    decreases labels.len(),
{
    if labels.len() > 0 {
        lemma_sum_group_lens_empty(labels.drop_last());
    }
}

/// The groups of a distinct label list covering every label the documents
/// carry sum to the total label count: each document is counted with
/// multiplicity equal to how many labels it lists, and a document with no
/// labels contributes nothing.
pub proof fn lemma_groups_sum(docs: Seq<PostView>, labels: Seq<Seq<char>>)
    requires
        distinct_labels(labels),
        forall|i: int, j: int|
            0 <= i < docs.len() && 0 <= j < (#[trigger] docs[i]).frontmatter.tags.len()
                ==> labels.contains(#[trigger] docs[i].frontmatter.tags[j]),
    ensures
        sum_group_lens(docs, labels) == sum_label_counts(docs),
    decreases docs.len(),
{
    if docs.len() == 0 {
        assert(docs =~= Seq::<PostView>::empty());
        lemma_sum_group_lens_empty(labels);
    } else {
        lemma_sum_group_lens_step(docs, labels);
        assert forall|i: int, j: int|
            0 <= i < docs.drop_last().len() && 0 <= j < (#[trigger] docs.drop_last()[i]).frontmatter.tags.len()
                implies labels.contains(#[trigger] docs.drop_last()[i].frontmatter.tags[j]) by {
            assert(docs.drop_last()[i] == docs[i]);
        }
        lemma_groups_sum(docs.drop_last(), labels);
        assert forall|j: int| 0 <= j < docs.last().frontmatter.tags.len() implies labels.contains(
            #[trigger] docs.last().frontmatter.tags[j],
        ) by {
            assert(docs.last() == docs[docs.len() - 1]);
        }
        lemma_sum_counts_all(labels, docs.last().frontmatter.tags);
    }
}

} // verus!

verus! {

/// Some group in `out` is keyed by `t`.
pub open spec fn has_label_key(out: Seq<(String, Vec<Post>)>, t: Seq<char>) -> bool {
    exists|g: int| 0 <= g < out.len() && out[g].0@ == t
}

/// Some document among `docs` lists the label `t`.
pub open spec fn label_occurs(docs: Seq<PostView>, t: Seq<char>) -> bool {
    exists|a: int, b: int|
        0 <= a < docs.len() && 0 <= b < docs[a].frontmatter.tags.len() && docs[a].frontmatter.tags[b]
            == t
}

/// The index of the group keyed by `t`, when there is one.
fn find_group(out: &Vec<(String, Vec<Post>)>, t: &String) -> (r: Option<usize>)
    ensures
        match r {
            Some(g) => (g as int) < out@.len() && out@[g as int].0@ == t@,
            None => forall|g: int| 0 <= g < out@.len() ==> (#[trigger] out@[g]).0@ != t@,
        },
{
    let mut g: usize = 0;
    while g < out.len()
        invariant
            g <= out@.len(),
            forall|h: int| 0 <= h < g ==> (#[trigger] out@[h]).0@ != t@,
        decreases out@.len() - g,
    {
        if out[g].0 == *t {
            return Some(g);
        }
        g = g + 1;
    }
    None
}

impl PostsDatabase {
    /// The documents under `keys`, grouped by category label: one group per
    /// distinct label, holding each document in key order, once per
    /// occurrence of the label among its categories. Every label any
    /// document lists keys exactly one group, and every group's label is
    /// listed by some document — so a document with no labels joins no
    /// group.
    pub fn group_by_category(&self, keys: &Vec<SourcePath>) -> (r: Vec<(String, Vec<Post>)>)
        requires
            self.wf(),
            forall|i: int| 0 <= i < keys@.len() ==> self@.docs.contains_key(
                (#[trigger] keys@[i])@,
            ),
        ensures
            ({
                let pool = docs_seq(self@.docs, keys.deep_view());
                &&& forall|g1: int, g2: int|
                    0 <= g1 < g2 < r@.len() ==> (#[trigger] r@[g1]).0@ != (#[trigger] r@[g2]).0@
                &&& forall|g: int|
                    0 <= g < r@.len() ==> (#[trigger] r@[g]).1.deep_view() == group_of(
                        pool,
                        r@[g].0@,
                    )
                &&& forall|a: int, b: int|
                    0 <= a < pool.len() && 0 <= b < pool[a].frontmatter.tags.len()
                        ==> has_label_key(r@, #[trigger] pool[a].frontmatter.tags[b])
                &&& forall|g: int| 0 <= g < r@.len() ==> label_occurs(pool, (#[trigger] r@[g]).0@)
            }),
    {
        let ghost kd = keys.deep_view();
        let ghost pool = docs_seq(self@.docs, kd);
        let mut out: Vec<(String, Vec<Post>)> = Vec::new();
        let mut i: usize = 0;
        while i < keys.len()
            invariant
                i <= keys@.len(),
                kd == keys.deep_view(),
                kd.len() == keys@.len(),
                self.wf(),
                pool == docs_seq(self@.docs, kd),
                forall|t: int| 0 <= t < keys@.len() ==> self@.docs.contains_key(
                    (#[trigger] keys@[t])@,
                ),
                forall|g: int|
                    0 <= g < out@.len() ==> (#[trigger] out@[g]).1.deep_view() == group_of(
                        pool.take(i as int),
                        out@[g].0@,
                    ),
                forall|g1: int, g2: int|
                    0 <= g1 < g2 < out@.len() ==> (#[trigger] out@[g1]).0@ != (
                    #[trigger] out@[g2]).0@,
                forall|a: int, b: int|
                    0 <= a < i && 0 <= b < pool[a].frontmatter.tags.len() ==> has_label_key(
                        out@,
                        #[trigger] pool[a].frontmatter.tags[b],
                    ),
                forall|g: int| 0 <= g < out@.len() ==> label_occurs(
                    pool.take(i as int),
                    (#[trigger] out@[g]).0@,
                ),
            decreases keys@.len() - i,
        {
            let doc = match self.get(&keys[i]) {
                Ok(d) => d,
                Err(_) => {
                    proof {
                        assert(false);
                    }
                    return Vec::new();
                },
            };
            let ghost dv = doc.deep_view();
            let ghost tview = dv.frontmatter.tags;
            proof {
                assert(kd[i as int] == keys@[i as int]@);
                assert(dv == pool[i as int]);
                assert(tview == doc.frontmatter.tags.deep_view());
                // Entering the document: its first zero labels change nothing.
                assert(tview.take(0) =~= Seq::<Seq<char>>::empty());
                assert forall|g: int| 0 <= g < out@.len() implies (#[trigger] out@[g]).1.deep_view()
                    == group_of(pool.take(i as int), out@[g].0@) + repeat_doc(
                    dv,
                    count_label(tview.take(0), out@[g].0@),
                ) by {
                    assert(repeat_doc(dv, 0) =~= Seq::<PostView>::empty());
                    assert(group_of(pool.take(i as int), out@[g].0@) + repeat_doc(dv, 0)
                        =~= group_of(pool.take(i as int), out@[g].0@));
                }
                assert forall|g: int| 0 <= g < out@.len() implies label_occurs(
                    pool.take(i + 1),
                    (#[trigger] out@[g]).0@,
                ) by {
                    let (a, b) = choose|a: int, b: int|
                        0 <= a < pool.take(i as int).len() && 0 <= b < pool.take(
                            i as int,
                        )[a].frontmatter.tags.len() && pool.take(i as int)[a].frontmatter.tags[b]
                            == out@[g].0@;
                    assert(pool.take(i + 1)[a] == pool.take(i as int)[a]);
                }
            }
            let mut j: usize = 0;
            while j < doc.frontmatter.tags.len()
                invariant
                    i < keys@.len(),
                    j <= doc.frontmatter.tags@.len(),
                    kd == keys.deep_view(),
                    kd.len() == keys@.len(),
                    self.wf(),
                    pool == docs_seq(self@.docs, kd),
                    dv == doc.deep_view(),
                    dv == pool[i as int],
                    tview == dv.frontmatter.tags,
                    tview.len() == doc.frontmatter.tags@.len(),
                    forall|g: int|
                        0 <= g < out@.len() ==> (#[trigger] out@[g]).1.deep_view() == group_of(
                            pool.take(i as int),
                            out@[g].0@,
                        ) + repeat_doc(dv, count_label(tview.take(j as int), out@[g].0@)),
                    forall|g1: int, g2: int|
                        0 <= g1 < g2 < out@.len() ==> (#[trigger] out@[g1]).0@ != (
                        #[trigger] out@[g2]).0@,
                    forall|a: int, b: int|
                        0 <= a < i && 0 <= b < pool[a].frontmatter.tags.len() ==> has_label_key(
                            out@,
                            #[trigger] pool[a].frontmatter.tags[b],
                        ),
                    forall|b: int| 0 <= b < j ==> has_label_key(out@, #[trigger] tview[b]),
                    forall|g: int| 0 <= g < out@.len() ==> label_occurs(
                        pool.take(i + 1),
                        (#[trigger] out@[g]).0@,
                    ),
                decreases doc.frontmatter.tags@.len() - j,
            {
                let t = &doc.frontmatter.tags[j];
                proof {
                    assert(tview[j as int] == doc.frontmatter.tags@[j as int]@);
                    assert(tview.take(j + 1).drop_last() =~= tview.take(j as int));
                    assert(tview.take(j + 1).last() == tview[j as int]);
                }
                let ghost prev = out@;
                match find_group(&out, t) {
                    Some(g) => {
                        let mut pair = out.remove(g);
                        let ghost pg = prev[g as int];
                        pair.1.push(doc.clone());
                        out.insert(g, pair);
                        proof {
                            assert(out@ =~= prev.update(
                                g as int,
                                (pg.0, out@[g as int].1),
                            ));
                            assert(out@[g as int].0 == pg.0);
                            assert(out@[g as int].1@.len() == pg.1@.len() + 1);
                            assert forall|x: int|
                                0 <= x < out@[g as int].1.deep_view().len() implies out@[g as int].1.deep_view()[x]
                                == pg.1.deep_view().push(dv)[x] by {
                                assert(out@[g as int].1.deep_view()[x] == out@[g as int].1@[x].deep_view());
                                if x < pg.1@.len() {
                                    assert(out@[g as int].1@[x] == pg.1@[x]);
                                    assert(pg.1.deep_view()[x] == pg.1@[x].deep_view());
                                } else {
                                    assert(out@[g as int].1@[x].deep_view() == dv);
                                }
                            }
                            assert(out@[g as int].1.deep_view() =~= pg.1.deep_view().push(dv));
                            let kg = pg.0@;
                            assert(kg == tview[j as int]);
                            assert forall|h: int| 0 <= h < out@.len() implies (#[trigger] out@[h]).1.deep_view()
                                == group_of(pool.take(i as int), out@[h].0@) + repeat_doc(
                                dv,
                                count_label(tview.take(j + 1), out@[h].0@),
                            ) by {
                                if h == g {
                                    let c = count_label(tview.take(j as int), kg);
                                    assert(count_label(tview.take(j + 1), kg) == c + 1);
                                    assert(out@[h].1.deep_view() =~= pg.1.deep_view().push(dv));
                                    assert(repeat_doc(dv, c + 1) =~= repeat_doc(dv, c).push(dv));
                                    assert(group_of(pool.take(i as int), kg) + repeat_doc(
                                        dv,
                                        c + 1,
                                    ) =~= (group_of(pool.take(i as int), kg) + repeat_doc(dv, c)).push(
                                        dv,
                                    ));
                                } else {
                                    assert(out@[h] == prev[h]);
                                    assert(out@[h].0@ != kg);
                                    assert(count_label(tview.take(j + 1), out@[h].0@)
                                        == count_label(tview.take(j as int), out@[h].0@));
                                }
                            }
                            assert forall|b: int| 0 <= b < j + 1 implies has_label_key(
                                out@,
                                #[trigger] tview[b],
                            ) by {
                                if b < j {
                                    let h = choose|h: int|
                                        0 <= h < prev.len() && prev[h].0@ == tview[b];
                                    assert(out@[h].0@ == tview[b]);
                                } else {
                                    assert(out@[g as int].0@ == tview[b]);
                                }
                            }
                            assert forall|a: int, b: int|
                                0 <= a < i && 0 <= b < pool[a].frontmatter.tags.len() implies has_label_key(
                                out@,
                                #[trigger] pool[a].frontmatter.tags[b],
                            ) by {
                                let h = choose|h: int|
                                    0 <= h < prev.len() && prev[h].0@ == pool[a].frontmatter.tags[b];
                                assert(out@[h].0@ == pool[a].frontmatter.tags[b]);
                            }
                        }
                    },
                    None => {
                        let mut group: Vec<Post> = Vec::new();
                        group.push(doc.clone());
                        out.push((t.clone(), group));
                        proof {
                            let kg = tview[j as int];
                            let gnew = prev.len() as int;
                            assert(out@.drop_last() =~= prev);
                            assert(out@[gnew].0@ == kg);
                            assert(out@[gnew].1.deep_view() =~= repeat_doc(dv, 1));
                            // The label is fresh: no processed document and no
                            // earlier label of this one carries it.
                            assert forall|a: int|
                                0 <= a < pool.take(i as int).len() implies !(#[trigger] pool.take(
                                i as int,
                            )[a]).frontmatter.tags.contains(kg) by {
                                if pool.take(i as int)[a].frontmatter.tags.contains(kg) {
                                    let b = choose|b: int|
                                        0 <= b < pool.take(i as int)[a].frontmatter.tags.len()
                                            && pool.take(i as int)[a].frontmatter.tags[b] == kg;
                                    assert(pool[a].frontmatter.tags[b] == kg);
                                    assert(has_label_key(prev, kg));
                                    let h = choose|h: int|
                                        0 <= h < prev.len() && prev[h].0@ == kg;
                                    assert(false);
                                }
                            }
                            lemma_group_of_absent(pool.take(i as int), kg);
                            assert(!tview.take(j as int).contains(kg)) by {
                                if tview.take(j as int).contains(kg) {
                                    let b = choose|b: int|
                                        0 <= b < j && tview.take(j as int)[b] == kg;
                                    assert(has_label_key(prev, kg));
                                    let h = choose|h: int|
                                        0 <= h < prev.len() && prev[h].0@ == kg;
                                    assert(false);
                                }
                            }
                            lemma_count_label_zero(tview.take(j as int), kg);
                            assert(count_label(tview.take(j + 1), kg) == 1);
                            assert forall|h: int| 0 <= h < out@.len() implies (#[trigger] out@[h]).1.deep_view()
                                == group_of(pool.take(i as int), out@[h].0@) + repeat_doc(
                                dv,
                                count_label(tview.take(j + 1), out@[h].0@),
                            ) by {
                                if h < gnew {
                                    assert(out@[h] == prev[h]);
                                    assert(out@[h].0@ != kg);
                                    assert(count_label(tview.take(j + 1), out@[h].0@)
                                        == count_label(tview.take(j as int), out@[h].0@));
                                } else {
                                    assert(group_of(pool.take(i as int), kg) + repeat_doc(dv, 1)
                                        =~= repeat_doc(dv, 1));
                                }
                            }
                            assert forall|g1: int, g2: int|
                                0 <= g1 < g2 < out@.len() implies (#[trigger] out@[g1]).0@ != (
                            #[trigger] out@[g2]).0@ by {
                                if g2 < gnew {
                                    assert(out@[g1] == prev[g1]);
                                    assert(out@[g2] == prev[g2]);
                                } else {
                                    assert(out@[g1] == prev[g1]);
                                }
                            }
                            assert forall|b: int| 0 <= b < j + 1 implies has_label_key(
                                out@,
                                #[trigger] tview[b],
                            ) by {
                                if b < j {
                                    let h = choose|h: int|
                                        0 <= h < prev.len() && prev[h].0@ == tview[b];
                                    assert(out@[h].0@ == tview[b]);
                                } else {
                                    assert(out@[gnew].0@ == tview[b]);
                                }
                            }
                            assert forall|a: int, b: int|
                                0 <= a < i && 0 <= b < pool[a].frontmatter.tags.len() implies has_label_key(
                                out@,
                                #[trigger] pool[a].frontmatter.tags[b],
                            ) by {
                                let h = choose|h: int|
                                    0 <= h < prev.len() && prev[h].0@ == pool[a].frontmatter.tags[b];
                                assert(out@[h].0@ == pool[a].frontmatter.tags[b]);
                            }
                            assert forall|h: int| 0 <= h < out@.len() implies label_occurs(
                                pool.take(i + 1),
                                (#[trigger] out@[h]).0@,
                            ) by {
                                if h < gnew {
                                    assert(label_occurs(pool.take(i + 1), prev[h].0@));
                                } else {
                                    assert(pool.take(i + 1)[i as int] == dv);
                                    assert(pool.take(i + 1)[i as int].frontmatter.tags[j as int]
                                        == kg);
                                }
                            }
                        }
                    },
                }
                j = j + 1;
            }
            proof {
                assert(tview.take(tview.len() as int) =~= tview);
                assert(pool.take(i + 1).drop_last() =~= pool.take(i as int));
                assert(pool.take(i + 1).last() == dv);
                assert forall|g: int| 0 <= g < out@.len() implies (#[trigger] out@[g]).1.deep_view()
                    == group_of(pool.take(i + 1), out@[g].0@) by {
                    assert(out@[g].1.deep_view() == group_of(pool.take(i as int), out@[g].0@)
                        + repeat_doc(dv, count_label(tview, out@[g].0@)));
                    assert(group_of(pool.take(i + 1), out@[g].0@) == group_of(
                        pool.take(i as int),
                        out@[g].0@,
                    ) + repeat_doc(dv, count_label(dv.frontmatter.tags, out@[g].0@)));
                }
                assert forall|a: int, b: int|
                    0 <= a < i + 1 && 0 <= b < pool[a].frontmatter.tags.len() implies has_label_key(
                    out@,
                    #[trigger] pool[a].frontmatter.tags[b],
                ) by {
                    if a == i {
                        assert(pool[a].frontmatter.tags[b] == tview[b]);
                    }
                }
            }
            i = i + 1;
        }
        proof {
            assert(pool.take(kd.len() as int) =~= pool);
            assert forall|g: int| 0 <= g < out@.len() implies label_occurs(
                pool,
                (#[trigger] out@[g]).0@,
            ) by {
                let (a, b) = choose|a: int, b: int|
                    0 <= a < pool.take(i as int).len() && 0 <= b < pool.take(
                        i as int,
                    )[a].frontmatter.tags.len() && pool.take(i as int)[a].frontmatter.tags[b]
                        == out@[g].0@;
                assert(pool[a].frontmatter.tags[b] == out@[g].0@);
            }
        }
        out
    }

    /// The grouping of documents by category label, under its original
    /// name: the tag index the templates render.
    pub fn get_tags(&self, keys: &Vec<SourcePath>) -> (r: Vec<(String, Vec<Post>)>)
        requires
            self.wf(),
            forall|i: int| 0 <= i < keys@.len() ==> self@.docs.contains_key(
                (#[trigger] keys@[i])@,
            ),
        ensures
            ({
                let pool = docs_seq(self@.docs, keys.deep_view());
                &&& forall|g1: int, g2: int|
                    0 <= g1 < g2 < r@.len() ==> (#[trigger] r@[g1]).0@ != (#[trigger] r@[g2]).0@
                &&& forall|g: int|
                    0 <= g < r@.len() ==> (#[trigger] r@[g]).1.deep_view() == group_of(
                        pool,
                        r@[g].0@,
                    )
                &&& forall|a: int, b: int|
                    0 <= a < pool.len() && 0 <= b < pool[a].frontmatter.tags.len()
                        ==> has_label_key(r@, #[trigger] pool[a].frontmatter.tags[b])
                &&& forall|g: int| 0 <= g < r@.len() ==> label_occurs(pool, (#[trigger] r@[g]).0@)
            }),
    {
        self.group_by_category(keys)
    }
}

} // verus!
