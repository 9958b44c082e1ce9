use vstd::prelude::*;

use crate::doc::{PostView, Timestamp};
use crate::error::Error;
use crate::paths::SourcePath;
use crate::render::{excerpt_markup_of, markup_of};
use crate::store::PostsDatabase;

verus! {

// ---------------------------------------------------------------------------
// Feed assembly: one syndication entry per document, then an RSS channel
// around them. The entry list is computed and verified here; the channel
// types of the `rss` crate only carry the entries out.
// ---------------------------------------------------------------------------

/// What `chrono`'s RFC 2822 formatting produces for an instant with a fixed
/// offset: a function of the two values alone.
pub uninterp spec fn rfc2822_of(secs: int, offset_secs: int) -> Seq<char>;

impl Timestamp {
    /// Relies on `chrono::DateTime::from_timestamp`, `FixedOffset::east_opt`
    /// and `DateTime::to_rfc2822`: the RFC 2822 form of this instant at its
    /// offset. `wf` keeps the instant and the offset inside the ranges those
    /// calls accept, and keeps the local date within the years RFC 2822 can
    /// express, so none of the calls can fail.
    #[verifier::external_body]
    pub fn to_rfc2822(&self) -> (r: String)
        requires
            self.wf(),
        ensures
            r@ == rfc2822_of(self.secs as int, self.offset_secs as int),
    {
        let date = chrono::DateTime::from_timestamp(self.secs, 0).unwrap();
        let offset = chrono::FixedOffset::east_opt(self.offset_secs).unwrap();
        date.with_timezone(&offset).to_rfc2822()
    }
}

/// One syndication entry: the fields a feed item carries for a document.
pub struct FeedEntry {
    pub title: String,
    pub link: String,
    pub pub_date: String,
    pub description: String,
    pub content: String,
}

/// The mathematical value of a `FeedEntry`.
#[verifier::ext_equal]
pub ghost struct FeedEntryView {
    pub title: Seq<char>,
    pub link: Seq<char>,
    pub pub_date: Seq<char>,
    pub description: Seq<char>,
    pub content: Seq<char>,
}

impl DeepView for FeedEntry {
    type V = FeedEntryView;

    open spec fn deep_view(&self) -> FeedEntryView {
        FeedEntryView {
            title: self.title@,
            link: self.link@,
            pub_date: self.pub_date@,
            description: self.description@,
            content: self.content@,
        }
    }
}

/// Why a feed could not be assembled: a key with no document, or a document
/// missing a required field (title or link).
pub ghost enum FeedFailure {
    Missing { key: Seq<char> },
    Incomplete { key: Seq<char> },
}

/// The entry a complete document yields: title and link from its metadata,
/// the RFC 2822 form of its publish instant, and the excerpt and rendered
/// content of its body, as the derivation engine computes them.
pub open spec fn entry_of(d: PostView) -> FeedEntryView {
    match (d.frontmatter.title, d.frontmatter.link) {
        (Some(t), Some(l)) => FeedEntryView {
            title: t,
            link: l,
            pub_date: rfc2822_of(d.frontmatter.date.secs as int, d.frontmatter.date.offset_secs as int),
            description: excerpt_markup_of(d.content),
            content: markup_of(d.content),
        },
        _ => vstd::pervasive::arbitrary(),
    }
}

/// The feed the documents under `keys` yield, or the first failure in key
/// order: a missing document, or a document without a title or a link.
pub open spec fn feed_spec(docs: Map<Seq<char>, PostView>, keys: Seq<Seq<char>>) -> Result<
    Seq<FeedEntryView>,
    FeedFailure,
>
    decreases keys.len(),
{
    if keys.len() == 0 {
        Ok(Seq::empty())
    } else {
        let k = keys[0];
        if !docs.contains_key(k) {
            Err(FeedFailure::Missing { key: k })
        } else if docs[k].frontmatter.title is None || docs[k].frontmatter.link is None {
            Err(FeedFailure::Incomplete { key: k })
        } else {
            match feed_spec(docs, keys.drop_first()) {
                Ok(rest) => Ok(seq![entry_of(docs[k])] + rest),
                Err(e) => Err(e),
            }
        }
    }
}

impl PostsDatabase {
    /// One syndication entry per document under `keys`, in key order, each
    /// carrying title, canonical link, RFC 2822 publish date, and the
    /// memoized excerpt and rendered content. Fails with `NotFound` on a
    /// key with no document and with `FeedBuild` on a document missing its
    /// title or link, naming the first offending key; on failure no feed is
    /// produced and the stored documents are untouched.
    pub fn build_feed(&mut self, keys: &Vec<SourcePath>) -> (r: Result<Vec<FeedEntry>, Error>)
        requires
            old(self).wf(),
        ensures
            final(self).wf(),
            final(self)@.docs == old(self)@.docs,
            match r {
                Ok(es) => feed_spec(old(self)@.docs, keys.deep_view()) == Ok::<Seq<FeedEntryView>, FeedFailure>(es.deep_view()),
                Err(e) => match e {
                    Error::NotFound { key: ek } => feed_spec(old(self)@.docs, keys.deep_view())
                        == Err::<Seq<FeedEntryView>, FeedFailure>(FeedFailure::Missing { key: ek@ }),
                    Error::FeedBuild { key: ek, message } => ek matches Some(k2) && feed_spec(
                        old(self)@.docs,
                        keys.deep_view(),
                    ) == Err::<Seq<FeedEntryView>, FeedFailure>(FeedFailure::Incomplete { key: k2@ }),
                    _ => false,
                },
            },
    {
        let ghost docs0 = old(self)@.docs;
        let ghost kd = keys.deep_view();
        let mut out: Vec<FeedEntry> = Vec::new();
        let mut i: usize = 0;
        proof {
            assert(kd.skip(0) =~= kd);
        }
        while i < keys.len()
            invariant
                i <= keys@.len(),
                kd == keys.deep_view(),
                kd.len() == keys@.len(),
                docs0 == old(self)@.docs,
                self.wf(),
                self@.docs == docs0,
                out@.len() == i,
                feed_spec(docs0, kd) == (match feed_spec(docs0, kd.skip(i as int)) {
                    Ok(rest) => Ok::<Seq<FeedEntryView>, FeedFailure>(out.deep_view() + rest),
                    Err(e) => Err(e),
                }),
            decreases keys@.len() - i,
        {
            let ghost k = kd[i as int];
            proof {
                assert(keys@[i as int]@ == k);
                assert(kd.skip(i as int)[0] == k);
                assert(kd.skip(i as int).drop_first() =~= kd.skip(i + 1));
            }
            let doc = match self.get(&keys[i]) {
                Ok(d) => d,
                Err(e) => {
                    proof {
                        assert(feed_spec(docs0, kd.skip(i as int)) == Err::<
                            Seq<FeedEntryView>,
                            FeedFailure,
                        >(FeedFailure::Missing { key: k }));
                    }
                    return Err(e);
                },
            };
            let ghost dv = doc.deep_view();
            proof {
                assert(dv == docs0[k]);
            }
            let title = match &doc.frontmatter.title {
                Some(t) => t.clone(),
                None => {
                    proof {
                        assert(dv.frontmatter.title is None);
                        assert(feed_spec(docs0, kd.skip(i as int)) == Err::<
                            Seq<FeedEntryView>,
                            FeedFailure,
                        >(FeedFailure::Incomplete { key: k }));
                    }
                    return Err(
                        Error::FeedBuild {
                            key: Some(keys[i].clone()),
                            message: "document has no title".to_owned(),
                        },
                    );
                },
            };
            let link = match &doc.frontmatter.link {
                Some(l) => l.clone(),
                None => {
                    proof {
                        assert(dv.frontmatter.link is None);
                        assert(feed_spec(docs0, kd.skip(i as int)) == Err::<
                            Seq<FeedEntryView>,
                            FeedFailure,
                        >(FeedFailure::Incomplete { key: k }));
                    }
                    return Err(
                        Error::FeedBuild {
                            key: Some(keys[i].clone()),
                            message: "document has no link".to_owned(),
                        },
                    );
                },
            };
            proof {
                assert(dv.frontmatter.title is Some && dv.frontmatter.link is Some);
                assert(dv.wf());
            }
            let content = match self.to_html(&keys[i]) {
                Ok(h) => h,
                Err(e) => {
                    return Err(e);
                },
            };
            let description = match self.excerpt(&keys[i]) {
                Ok(h) => h,
                Err(e) => {
                    return Err(e);
                },
            };
            let pub_date = doc.frontmatter.date.to_rfc2822();
            let entry = FeedEntry { title, link, pub_date, description, content };
            let ghost prev_outd = out.deep_view();
            out.push(entry);
            proof {
                assert(entry.deep_view() =~= entry_of(dv));
                assert(out.deep_view() =~= prev_outd.push(entry_of(dv)));
                assert(feed_spec(docs0, kd.skip(i as int)) == (match feed_spec(
                    docs0,
                    kd.skip(i + 1),
                ) {
                    Ok(rest) => Ok::<Seq<FeedEntryView>, FeedFailure>(
                        seq![entry_of(docs0[k])] + rest,
                    ),
                    Err(e) => Err(e),
                }));
                match feed_spec(docs0, kd.skip(i + 1)) {
                    Ok(rest) => {
                        assert(prev_outd + (seq![entry_of(docs0[k])] + rest) =~= out.deep_view()
                            + rest);
                    },
                    Err(_) => {},
                }
            }
            i = i + 1;
        }
        proof {
            assert(kd.skip(kd.len() as int) =~= Seq::<Seq<char>>::empty());
            assert(out.deep_view() + Seq::<FeedEntryView>::empty() =~= out.deep_view());
        }
        Ok(out)
    }
}

} // verus!

verus! {

#[verifier::external_type_specification]
#[verifier::external_body]
pub struct ExChannel(rss::Channel);

#[verifier::external_type_specification]
#[verifier::external_body]
pub struct ExValidationError(rss::validation::ValidationError);

/// The channel's own title.
pub open spec fn channel_title() -> Seq<char> {
    "Dustin Knopoff"@
}

/// The channel's own link.
pub open spec fn channel_link() -> Seq<char> {
    "http://dustinknopoff.dev"@
}

/// The channel's own description.
pub open spec fn channel_description() -> Seq<char> {
    "rustacean, cook, and martial arts enthusiast"@
}

/// The XML namespaces the feed declares.
pub open spec fn feed_namespaces() -> Seq<(Seq<char>, Seq<char>)> {
    seq![
        ("atom"@, "http://www.w3.org/2005/Atom"@),
        ("dc"@, "http://purl.org/dc/elements/1.1/"@),
        ("content"@, "http://purl.org/rss/1.0/modules/content/"@),
    ]
}

/// Whether rss validation accepts the channel assembled from exactly these
/// fields, items made one-for-one from these entries included. The verdict
/// parses the links and dates the fields carry, so it is a function of
/// them alone.
pub uninterp spec fn rss_accepts(
    title: Seq<char>,
    link: Seq<char>,
    description: Seq<char>,
    build_date: Seq<char>,
    namespaces: Seq<(Seq<char>, Seq<char>)>,
    entries: Seq<FeedEntryView>,
) -> bool;

/// Some build instant makes rss validation accept the channel these
/// entries yield.
pub open spec fn channel_accepted(entries: Seq<FeedEntryView>) -> bool {
    exists|bd: Seq<char>|
        rss_accepts(
            channel_title(),
            channel_link(),
            channel_description(),
            bd,
            feed_namespaces(),
            entries,
        )
}

/// Some build instant makes rss validation reject the channel these
/// entries yield.
pub open spec fn channel_rejected(entries: Seq<FeedEntryView>) -> bool {
    exists|bd: Seq<char>|
        !rss_accepts(
            channel_title(),
            channel_link(),
            channel_description(),
            bd,
            feed_namespaces(),
            entries,
        )
}

/// Relies on `rss::Item`'s public fields, `rss::ChannelBuilder::build`
/// (infallible: its builder error type is `Infallible`) and
/// `rss::validation::Validate` for `Channel`: assembles the channel from
/// exactly the given fields, one item per entry carrying the entry's five
/// fields, and validates it. Whether validation accepts is a deterministic
/// function of those inputs, named `rss_accepts`.
#[verifier::external_body]
fn build_validated_channel(
    title: &str,
    link: &str,
    description: &str,
    last_build_date: String,
    namespaces: Vec<(String, String)>,
    entries: &Vec<FeedEntry>,
) -> (r: Result<rss::Channel, rss::validation::ValidationError>)
    ensures
        r is Ok <==> rss_accepts(
            title@,
            link@,
            description@,
            last_build_date@,
            namespaces.deep_view(),
            entries.deep_view(),
        ),
{
    let items: Vec<rss::Item> = entries.iter().map(|e| rss::Item {
        title: Some(e.title.clone()),
        link: Some(e.link.clone()),
        pub_date: Some(e.pub_date.clone()),
        description: Some(e.description.clone()),
        content: Some(e.content.clone()),
        ..rss::Item::default()
    }).collect();
    let channel = rss::ChannelBuilder::default().title(title).link(link).description(
        description,
    ).last_build_date(Some(last_build_date)).namespaces(
        namespaces.into_iter().collect::<std::collections::BTreeMap<String, String>>(),
    ).items(items).build();
    rss::validation::Validate::validate(&channel).map(|_| channel)
}

/// Relies on `chrono::Local::now` and `to_rfc2822`: the current wall-clock
/// time in RFC 2822 form; nothing is assumed of its value.
#[verifier::external_body]
fn now_rfc2822() -> (r: String) {
    chrono::Local::now().to_rfc2822()
}

impl PostsDatabase {
    /// The validated RSS channel of the documents under `keys`: the feed
    /// entries of `build_feed` wrapped in the site's channel, stamped with
    /// the build time. A feed failure is reported exactly as `build_feed`
    /// reports it. When the feed can be built, the call returns the channel
    /// exactly when rss validation accepts it for the build instant drawn
    /// from the clock, and otherwise a `FeedBuild` failure with no key —
    /// never any other error. The stored documents are untouched either way.
    pub fn generate_rss(&mut self, keys: &Vec<SourcePath>) -> (r: Result<rss::Channel, Error>)
        requires
            old(self).wf(),
        ensures
            final(self).wf(),
            final(self)@.docs == old(self)@.docs,
            (feed_spec(old(self)@.docs, keys.deep_view()) is Ok && r is Ok)
                ==> channel_accepted(feed_spec(old(self)@.docs, keys.deep_view())->Ok_0),
            (feed_spec(old(self)@.docs, keys.deep_view()) is Ok && r is Err) ==> (
            r matches Err(e) && e matches Error::FeedBuild { key, message } && key is None)
                && channel_rejected(feed_spec(old(self)@.docs, keys.deep_view())->Ok_0),
            feed_spec(old(self)@.docs, keys.deep_view()) matches Err(FeedFailure::Missing { key })
                ==> (r matches Err(e) && (e matches Error::NotFound { key: ek } && ek@ == key)),
            feed_spec(old(self)@.docs, keys.deep_view()) matches Err(
                FeedFailure::Incomplete { key },
            ) ==> (r matches Err(e) && (e matches Error::FeedBuild { key: ek, message }
                && ek matches Some(k2) && k2@ == key)),
    {
        let entries = match self.build_feed(keys) {
            Ok(es) => es,
            Err(e) => {
                return Err(e);
            },
        };
        let mut namespaces: Vec<(String, String)> = Vec::new();
        namespaces.push(("atom".to_owned(), "http://www.w3.org/2005/Atom".to_owned()));
        namespaces.push(("dc".to_owned(), "http://purl.org/dc/elements/1.1/".to_owned()));
        namespaces.push(
            ("content".to_owned(), "http://purl.org/rss/1.0/modules/content/".to_owned()),
        );
        proof {
            assert(namespaces.deep_view() =~~= feed_namespaces());
        }
        let build_date = now_rfc2822();
        let ghost bd = build_date@;
        let result = build_validated_channel(
            "Dustin Knopoff",
            "http://dustinknopoff.dev",
            "rustacean, cook, and martial arts enthusiast",
            build_date,
            namespaces,
            &entries,
        );
        match result {
            Ok(channel) => {
                proof {
                    let es0 = entries.deep_view();
                    assert(channel_accepted(es0)) by {
                        assert(rss_accepts(
                            channel_title(),
                            channel_link(),
                            channel_description(),
                            bd,
                            feed_namespaces(),
                            es0,
                        ));
                    }
                }
                Ok(channel)
            },
            Err(_) => {
                proof {
                    let es0 = entries.deep_view();
                    assert(channel_rejected(es0)) by {
                        assert(!rss_accepts(
                            channel_title(),
                            channel_link(),
                            channel_description(),
                            bd,
                            feed_namespaces(),
                            es0,
                        ));
                    }
                }
                Err(
                    Error::FeedBuild {
                        key: None,
                        message: "generated feed failed validation".to_owned(),
                    },
                )
            },
        }
    }
}

} // verus!
