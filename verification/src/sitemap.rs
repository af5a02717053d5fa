//! Sitemaps: what kind a document is, which URLs it names, and how the
//! documents of a sitemap index are gathered into one list of pages.

use crate::order::{
    lemma_bytes_total, lemma_bytes_transitive, lemma_text_antisymmetric, ranked, sort_ranked,
    text_at_most, text_le, Ranking,
};
use crate::text::bytes_spell;
use quick_xml::events::Event;
use std::collections::VecDeque;
use vstd::prelude::*;
use vstd::utf8::encode_utf8;

verus! {

/// The kind of a sitemap document.
#[derive(Debug, Clone, Copy, PartialEq, Eq, Structural)]
pub enum SitemapType {
    /// A list of other sitemaps.
    SitemapIndex,
    /// A list of pages.
    UrlSet,
    /// Neither.
    Unknown,
}

impl SitemapType {
    /// The name of the kind.
    pub open spec fn name_text(self) -> Seq<char> {
        match self {
            SitemapType::SitemapIndex => "SitemapIndex"@,
            SitemapType::UrlSet => "UrlSet"@,
            SitemapType::Unknown => "Unknown"@,
        }
    }

    /// The name of the kind.
    pub fn name(&self) -> (text: String)
        ensures
            text@ == self.name_text(),
    {
        match self {
            SitemapType::SitemapIndex => "SitemapIndex".to_owned(),
            SitemapType::UrlSet => "UrlSet".to_owned(),
            SitemapType::Unknown => "Unknown".to_owned(),
        }
    }
}

/// One step of reading an XML document, as far as sitemaps need it.
#[derive(Debug, PartialEq, Eq)]
pub enum XmlEvent {
    /// An opening tag, with its name as it stands in the document.
    Start(Vec<u8>),
    /// Text between tags with its entities resolved, or `None` where they
    /// cannot be.
    Text(Option<String>),
    /// The end of the document.
    Eof,
    /// The reader met something it could not read.
    Failure,
    /// Anything else: a closing or empty tag, a comment, a declaration.
    Other,
}

/// An `XmlEvent` as a value of specifications.
pub ghost enum XmlItem {
    Start(Seq<u8>),
    Text(Option<Seq<char>>),
    Eof,
    Failure,
    Other,
}

impl View for XmlEvent {
    type V = XmlItem;

    open spec fn view(&self) -> XmlItem {
        match self {
            XmlEvent::Start(name) => XmlItem::Start(name@),
            XmlEvent::Text(Some(text)) => XmlItem::Text(Some(text@)),
            XmlEvent::Text(None) => XmlItem::Text(None),
            XmlEvent::Eof => XmlItem::Eof,
            XmlEvent::Failure => XmlItem::Failure,
            XmlEvent::Other => XmlItem::Other,
        }
    }
}

/// The events as values of specifications.
pub open spec fn items_of(events: Seq<XmlEvent>) -> Seq<XmlItem> {
    events.map_values(|e: XmlEvent| e@)
}

/// The XML reader of `quick_xml`.
#[verifier::external_type_specification]
#[verifier::external_body]
#[verifier::reject_recursive_types(R)]
pub struct ExReader<R>(quick_xml::Reader<R>);

/// What a `quick_xml` reader with its default settings yields for a
/// document, event by event, up to the end of the document and without it.
pub uninterp spec fn xml_items(document: Seq<char>) -> Seq<XmlItem>;

/// What a reader has yet to yield before it reaches the end of its document.
pub uninterp spec fn pending_items(reader: &quick_xml::Reader<&[u8]>) -> Seq<XmlItem>;

/// Calls `Reader::from_str`. Trusted: the reader will yield the events of
/// the document, from the first.
#[verifier::external_body]
fn open_reader<'a>(document: &'a str) -> (reader: quick_xml::Reader<&'a [u8]>)
    ensures
        pending_items(&reader) == xml_items(document@),
{
    quick_xml::Reader::from_str(document)
}

/// Calls `Reader::read_event`, and `BytesText::unescape` on a text. Trusted:
/// the reader hands out its pending events one by one, none of them an end
/// of document, and reports the end of the document from then on.
#[verifier::external_body]
fn next_event<'a>(reader: &mut quick_xml::Reader<&'a [u8]>) -> (event: XmlEvent)
    ensures
        pending_items(old(reader)).len() == 0 ==> event@ == XmlItem::Eof && pending_items(
            final(reader),
        ) == pending_items(old(reader)),
        pending_items(old(reader)).len() > 0 ==> event@ == pending_items(old(reader))[0]
            && event@ != XmlItem::Eof && pending_items(final(reader)) == pending_items(
            old(reader),
        ).drop_first(),
{
    match reader.read_event() {
        Ok(Event::Start(tag)) => XmlEvent::Start(tag.name().as_ref().to_vec()),
        Ok(Event::Text(text)) => XmlEvent::Text(text.unescape().ok().map(|t| t.into_owned())),
        Ok(Event::Eof) => XmlEvent::Eof,
        Ok(_) => XmlEvent::Other,
        Err(_) => XmlEvent::Failure,
    }
}

/// The kind that the name of a root element stands for.
pub open spec fn kind_of_root(name: Seq<u8>) -> SitemapType {
    if name == encode_utf8("sitemapindex"@) {
        SitemapType::SitemapIndex
    } else if name == encode_utf8("urlset"@) {
        SitemapType::UrlSet
    } else {
        SitemapType::Unknown
    }
}

/// The kind of the document that reads as `items`: that of its first
/// opening tag, unless the document ends or fails before one.
pub open spec fn sitemap_type_of(items: Seq<XmlItem>) -> SitemapType
    decreases items.len(),
{
    if items.len() == 0 {
        SitemapType::Unknown
    } else {
        match items[0] {
            XmlItem::Start(name) => kind_of_root(name),
            XmlItem::Eof => SitemapType::Unknown,
            XmlItem::Failure => SitemapType::Unknown,
            _ => sitemap_type_of(items.drop_first()),
        }
    }
}

/// The URLs that the document names which reads as `items` from `at` on:
/// after each opening `loc` tag the next event is taken, and counts where it
/// is a text whose entities resolve. Reading stops at a failure that does
/// not follow a `loc` tag, and at the end of the document.
pub open spec fn urls_from(items: Seq<XmlItem>, at: int) -> Seq<Seq<char>>
    decreases items.len() - at,
{
    if at < 0 || at >= items.len() {
        Seq::empty()
    } else {
        match items[at] {
            XmlItem::Start(name) => if name == encode_utf8("loc"@) {
                if at + 1 >= items.len() {
                    Seq::empty()
                } else {
                    match items[at + 1] {
                        XmlItem::Text(Some(url)) => seq![url] + urls_from(items, at + 2),
                        XmlItem::Eof => Seq::empty(),
                        _ => urls_from(items, at + 2),
                    }
                }
            } else {
                urls_from(items, at + 1)
            },
            XmlItem::Eof => Seq::empty(),
            XmlItem::Failure => Seq::empty(),
            _ => urls_from(items, at + 1),
        }
    }
}

/// The URLs that the document names which reads as `items`.
pub open spec fn urls_of(items: Seq<XmlItem>) -> Seq<Seq<char>> {
    urls_from(items, 0)
}

/// The texts of `urls`, in their order.
pub open spec fn texts(urls: Seq<String>) -> Seq<Seq<char>> {
    urls.map_values(|u: String| u@)
}

/// The kind that the name of a root element stands for.
pub fn root_kind(name: &Vec<u8>) -> (kind: SitemapType)
    ensures
        kind == kind_of_root(name@),
{
    if bytes_spell(name.as_slice(), "sitemapindex") {
        SitemapType::SitemapIndex
    } else if bytes_spell(name.as_slice(), "urlset") {
        SitemapType::UrlSet
    } else {
        SitemapType::Unknown
    }
}

/// The kind of the document that reads as `events`.
pub fn sitemap_type_of_events(events: &Vec<XmlEvent>) -> (kind: SitemapType)
    ensures
        kind == sitemap_type_of(items_of(events@)),
{
    let ghost items = items_of(events@);
    let mut i: usize = 0;
    proof {
        assert(items.skip(0) =~= items);
    }
    while i < events.len()
        invariant
            i <= events.len(),
            items == items_of(events@),
            sitemap_type_of(items) == sitemap_type_of(items.skip(i as int)),
        decreases events.len() - i,
    {
        proof {
            assert(items.skip(i as int)[0] == events@[i as int]@);
            assert(items.skip(i as int).drop_first() =~= items.skip(i + 1));
        }
        match &events[i] {
            XmlEvent::Start(name) => {
                return root_kind(name);
            },
            XmlEvent::Eof => {
                return SitemapType::Unknown;
            },
            XmlEvent::Failure => {
                return SitemapType::Unknown;
            },
            _ => {},
        }
        i = i + 1;
    }
    SitemapType::Unknown
}

/// The URLs that the document names which reads as `events`.
pub fn urls_of_events(events: &Vec<XmlEvent>) -> (urls: Vec<String>)
    ensures
        texts(urls@) == urls_of(items_of(events@)),
{
    let ghost items = items_of(events@);
    let mut urls: Vec<String> = Vec::new();
    let mut i: usize = 0;
    proof {
        assert(texts(urls@) =~= Seq::<Seq<char>>::empty());
    }
    while i < events.len()
        invariant
            i <= events.len(),
            items == items_of(events@),
            urls_of(items) == texts(urls@) + urls_from(items, i as int),
        decreases events.len() - i,
    {
        proof {
            assert(items[i as int] == events@[i as int]@);
            if i + 1 < events.len() {
                assert(items[i + 1] == events@[i + 1]@);
            }
        }
        match &events[i] {
            XmlEvent::Start(name) => {
                if bytes_spell(name.as_slice(), "loc") {
                    if i + 1 >= events.len() {
                        proof {
                            assert(texts(urls@) + Seq::<Seq<char>>::empty() =~= texts(urls@));
                        }
                        return urls;
                    }
                    match &events[i + 1] {
                        XmlEvent::Text(Some(url)) => {
                            let ghost before = texts(urls@);
                            urls.push(url.clone());
                            proof {
                                assert(texts(urls@) =~= before.push(url@));
                                assert(before + (seq![url@] + urls_from(items, i + 2))
                                    =~= before.push(url@) + urls_from(items, i + 2));
                            }
                        },
                        XmlEvent::Eof => {
                            proof {
                                assert(texts(urls@) + Seq::<Seq<char>>::empty() =~= texts(urls@));
                            }
                            return urls;
                        },
                        _ => {},
                    }
                    i = i + 2;
                } else {
                    i = i + 1;
                }
            },
            XmlEvent::Eof => {
                proof {
                    assert(texts(urls@) + Seq::<Seq<char>>::empty() =~= texts(urls@));
                }
                return urls;
            },
            XmlEvent::Failure => {
                proof {
                    assert(texts(urls@) + Seq::<Seq<char>>::empty() =~= texts(urls@));
                }
                return urls;
            },
            _ => {
                i = i + 1;
            },
        }
    }
    proof {
        assert(texts(urls@) + Seq::<Seq<char>>::empty() =~= texts(urls@));
    }
    urls
}

/// Reads a document to its end and returns its events, the end of the
/// document left out.
pub fn read_events(document: &str) -> (events: Vec<XmlEvent>)
    ensures
        items_of(events@) == xml_items(document@),
{
    let mut reader = open_reader(document);
    let mut events: Vec<XmlEvent> = Vec::new();
    proof {
        assert(items_of(events@) =~= Seq::<XmlItem>::empty());
        assert(Seq::<XmlItem>::empty() + pending_items(&reader) =~= pending_items(&reader));
    }
    loop
        invariant
            items_of(events@) + pending_items(&reader) == xml_items(document@),
        decreases pending_items(&reader).len(),
    {
        let ghost read = items_of(events@);
        let ghost pending = pending_items(&reader);
        let event = next_event(&mut reader);
        match event {
            XmlEvent::Eof => {
                proof {
                    assert(read + Seq::<XmlItem>::empty() =~= read);
                }
                return events;
            },
            _ => {
                events.push(event);
                proof {
                    assert(items_of(events@) =~= read.push(pending[0]));
                    assert(read.push(pending[0]) + pending.drop_first() =~= read + pending);
                }
            },
        }
    }
}

/// The kind of a sitemap document: that of its first opening tag, unless
/// the document ends or cannot be read before one.
pub fn identify_sitemap_type(xml: &str) -> (kind: SitemapType)
    ensures
        kind == sitemap_type_of(xml_items(xml@)),
{
    let mut reader = open_reader(xml);
    loop
        invariant
            sitemap_type_of(xml_items(xml@)) == sitemap_type_of(pending_items(&reader)),
        decreases pending_items(&reader).len(),
    {
        match next_event(&mut reader) {
            XmlEvent::Start(name) => {
                return root_kind(&name);
            },
            XmlEvent::Eof => {
                return SitemapType::Unknown;
            },
            XmlEvent::Failure => {
                return SitemapType::Unknown;
            },
            _ => {},
        }
    }
}

/// The URLs that stand in the `loc` elements of a sitemap document, in the
/// order of the document.
pub fn extract_sitemap_urls(xml: &str) -> (urls: Vec<String>)
    ensures
        texts(urls@) == urls_of(xml_items(xml@)),
{
    let events = read_events(xml);
    urls_of_events(&events)
}

/// Strings in their own order, least first.
pub struct TextAscending;

impl Ranking<String> for TextAscending {
    open spec fn before(a: &String, b: &String) -> bool {
        text_at_most(a@, b@)
    }

    proof fn lemma_total(a: &String, b: &String) {
        lemma_bytes_total(encode_utf8(a@), encode_utf8(b@));
    }

    proof fn lemma_transitive(a: &String, b: &String, c: &String) {
        lemma_bytes_transitive(encode_utf8(a@), encode_utf8(b@), encode_utf8(c@));
    }

    fn stands_before(a: &String, b: &String) -> (r: bool) {
        text_le(a.as_str(), b.as_str())
    }
}

/// Whether each text stands before all that follow it and differs from them.
pub open spec fn strictly_ascending(urls: Seq<Seq<char>>) -> bool {
    forall|i: int, j: int|
        0 <= i < j < urls.len() ==> text_at_most(#[trigger] urls[i], #[trigger] urls[j]) && urls[i]
            != urls[j]
}

/// Whether two lists name the same texts, however often and in whatever order.
pub open spec fn same_texts(a: Seq<Seq<char>>, b: Seq<Seq<char>>) -> bool {
    forall|u: Seq<char>| a.contains(u) <==> b.contains(u)
}

/// The URLs of `urls` in ascending order, each of them once.
pub fn sorted_unique(urls: Vec<String>) -> (pages: Vec<String>)
    ensures
        strictly_ascending(texts(pages@)),
        same_texts(texts(pages@), texts(urls@)),
{
    broadcast use vstd::seq_lib::group_to_multiset_ensures;

    let ghost given = urls@;
    let sorted = sort_ranked::<String, TextAscending>(urls);
    let ghost all = texts(sorted@);
    proof {
        assert forall|u: Seq<char>| #[trigger] all.contains(u) <==> texts(given).contains(u) by {
            if all.contains(u) {
                let k = choose|k: int| 0 <= k < all.len() && all[k] == u;
                assert(sorted@.contains(sorted@[k]));
                assert(sorted@.to_multiset().count(sorted@[k]) > 0);
                assert(given.contains(sorted@[k]));
                let m = choose|m: int| 0 <= m < given.len() && given[m] == sorted@[k];
                assert(texts(given)[m] == u);
            }
            if texts(given).contains(u) {
                let m = choose|m: int| 0 <= m < given.len() && texts(given)[m] == u;
                assert(given.contains(given[m]));
                assert(given.to_multiset().count(given[m]) > 0);
                assert(sorted@.contains(given[m]));
                let k = choose|k: int| 0 <= k < sorted@.len() && sorted@[k] == given[m];
                assert(all[k] == u);
            }
        }
    }
    let mut pages: Vec<String> = Vec::new();
    let mut i: usize = 0;
    while i < sorted.len()
        invariant
            i <= sorted.len(),
            all == texts(sorted@),
            ranked::<String, TextAscending>(sorted@),
            strictly_ascending(texts(pages@)),
            (i == 0) == (pages@.len() == 0),
            i > 0 ==> pages@[pages@.len() - 1]@ == all[i - 1],
            forall|k: int| 0 <= k < pages@.len() ==> all.take(i as int).contains(#[trigger] pages@[k]@),
            forall|m: int| 0 <= m < i ==> texts(pages@).contains(#[trigger] all[m]),
            same_texts(all, texts(given)),
        decreases sorted.len() - i,
    {
        let ghost kept = pages@;
        let fresh = if pages.len() == 0 {
            true
        } else {
            pages[pages.len() - 1] != sorted[i]
        };
        if fresh {
            pages.push(sorted[i].clone());
            proof {
                let added = all[i as int];
                assert(pages@[pages@.len() - 1]@ == added);
                assert forall|a: int, b: int| 0 <= a < b < pages@.len() implies text_at_most(
                    #[trigger] texts(pages@)[a],
                    #[trigger] texts(pages@)[b],
                ) && texts(pages@)[a] != texts(pages@)[b] by {
                    if b < kept.len() {
                        assert(texts(kept)[a] == texts(pages@)[a]);
                        assert(texts(kept)[b] == texts(pages@)[b]);
                    } else {
                        let early = kept[a]@;
                        let last = kept[kept.len() - 1]@;
                        assert(texts(pages@)[a] == early);
                        assert(texts(pages@)[b] == added);
                        assert(all.take(i as int).contains(early));
                        let m = choose|m: int| 0 <= m < i && all.take(i as int)[m] == early;
                        assert(TextAscending::before(&sorted@[m], &sorted@[i as int]));
                        assert(TextAscending::before(&sorted@[i - 1], &sorted@[i as int]));
                        if early == added {
                            if a < kept.len() - 1 {
                                assert(text_at_most(texts(kept)[a], texts(kept)[kept.len() - 1]));
                            } else {
                                lemma_bytes_total(encode_utf8(early), encode_utf8(last));
                            }
                            lemma_text_antisymmetric(early, last);
                        }
                    }
                }
                assert forall|k: int| 0 <= k < pages@.len() implies all.take(i + 1).contains(
                    #[trigger] pages@[k]@,
                ) by {
                    if k < kept.len() {
                        assert(all.take(i as int).contains(kept[k]@));
                        let m = choose|m: int| 0 <= m < i && all.take(i as int)[m] == kept[k]@;
                        assert(all.take(i + 1)[m] == kept[k]@);
                    } else {
                        assert(all.take(i + 1)[i as int] == added);
                    }
                }
                assert forall|m: int| 0 <= m < i + 1 implies texts(pages@).contains(
                    #[trigger] all[m],
                ) by {
                    if m < i {
                        assert(texts(kept).contains(all[m]));
                        let k = choose|k: int| 0 <= k < kept.len() && texts(kept)[k] == all[m];
                        assert(texts(pages@)[k] == all[m]);
                    } else {
                        assert(texts(pages@)[pages@.len() - 1] == added);
                    }
                }
            }
        } else {
            proof {
                assert(all[i as int] == all[i - 1]);
                assert forall|k: int| 0 <= k < pages@.len() implies all.take(i + 1).contains(
                    #[trigger] pages@[k]@,
                ) by {
                    assert(all.take(i as int).contains(kept[k]@));
                    let m = choose|m: int| 0 <= m < i && all.take(i as int)[m] == kept[k]@;
                    assert(all.take(i + 1)[m] == kept[k]@);
                }
                assert forall|m: int| 0 <= m < i + 1 implies texts(pages@).contains(
                    #[trigger] all[m],
                ) by {
                    if m == i {
                        assert(texts(pages@)[pages@.len() - 1] == all[m]);
                    }
                }
            }
        }
        i = i + 1;
    }
    proof {
        assert(all.take(i as int) =~= all);
        assert forall|u: Seq<char>| texts(pages@).contains(u) <==> texts(given).contains(u) by {
            assert(all.contains(u) <==> texts(given).contains(u));
            if texts(pages@).contains(u) {
                let k = choose|k: int| 0 <= k < pages@.len() && texts(pages@)[k] == u;
                assert(all.contains(pages@[k]@));
            }
            if all.contains(u) {
                let m = choose|m: int| 0 <= m < all.len() && all[m] == u;
                assert(texts(pages@).contains(all[m]));
            }
        }
    }
    pages
}

/// Why a document cannot be the root of a resolution.
#[derive(Debug, Clone, Copy, PartialEq, Eq, Structural)]
pub enum ResolveError {
    /// The document is neither a sitemap index nor a URL set.
    Unrecognized,
}

impl ResolveError {
    /// The message shown for this error.
    pub open spec fn message_text(self) -> Seq<char> {
        match self {
            ResolveError::Unrecognized => "The sitemap does not contain any URLs"@,
        }
    }

    /// The message shown for this error.
    pub fn message(&self) -> (text: String)
        ensures
            text@ == self.message_text(),
    {
        match self {
            ResolveError::Unrecognized => "The sitemap does not contain any URLs".to_owned(),
        }
    }
}

/// The gathering of the pages of a sitemap: the sitemaps that an index
/// names are fetched one after the other by the caller, and what each of
/// them names is added to what was found.
#[derive(Debug)]
pub struct Resolution {
    awaited: VecDeque<String>,
    found: Vec<String>,
}

impl Resolution {
    /// The sitemaps that are still to be fetched, in their order.
    pub closed spec fn awaited(&self) -> Seq<Seq<char>> {
        texts(self.awaited@)
    }

    /// The URLs of pages found so far, in the order in which they came.
    pub closed spec fn found(&self) -> Seq<Seq<char>> {
        texts(self.found@)
    }

    /// Starts from a root document of the given kind that names `urls`: a
    /// URL set names pages, an index names sitemaps to fetch, and any other
    /// document is refused.
    pub fn of_kind(kind: SitemapType, urls: Vec<String>) -> (started: Result<Resolution, ResolveError>)
        ensures
            kind == SitemapType::Unknown ==> started == Err::<Resolution, ResolveError>(
                ResolveError::Unrecognized,
            ),
            kind == SitemapType::UrlSet ==> started is Ok && started->Ok_0.awaited().len() == 0
                && started->Ok_0.found() == texts(urls@),
            kind == SitemapType::SitemapIndex ==> started is Ok && started->Ok_0.awaited() == texts(
                urls@,
            ) && started->Ok_0.found().len() == 0,
    {
        match kind {
            SitemapType::Unknown => Err(ResolveError::Unrecognized),
            SitemapType::UrlSet => Ok(Resolution { awaited: VecDeque::new(), found: urls }),
            SitemapType::SitemapIndex => {
                let mut urls = urls;
                let ghost named = urls@;
                let mut awaited: VecDeque<String> = VecDeque::new();
                // Taken from the end, put at the front: the order stays.
                while urls.len() > 0
                    invariant
                        urls@ + awaited@ == named,
                    decreases urls.len(),
                {
                    let ghost left = urls@;
                    let ghost moved = awaited@;
                    let url = urls.pop().unwrap();
                    awaited.push_front(url);
                    proof {
                        assert(urls@ + awaited@ =~= left + moved);
                    }
                }
                proof {
                    assert(awaited@ =~= named);
                }
                Ok(Resolution { awaited, found: Vec::new() })
            },
        }
    }

    /// Starts from the text of the root document.
    pub fn begin(root: &str) -> (started: Result<Resolution, ResolveError>)
        ensures
            sitemap_type_of(xml_items(root@)) == SitemapType::Unknown ==> started == Err::<
                Resolution,
                ResolveError,
            >(ResolveError::Unrecognized),
            sitemap_type_of(xml_items(root@)) == SitemapType::UrlSet ==> started is Ok
                && started->Ok_0.awaited().len() == 0 && started->Ok_0.found() == urls_of(
                xml_items(root@),
            ),
            sitemap_type_of(xml_items(root@)) == SitemapType::SitemapIndex ==> started is Ok
                && started->Ok_0.awaited() == urls_of(xml_items(root@))
                && started->Ok_0.found().len() == 0,
    {
        let events = read_events(root);
        let kind = sitemap_type_of_events(&events);
        let urls = urls_of_events(&events);
        Resolution::of_kind(kind, urls)
    }

    /// The sitemap to fetch next, if any is left.
    pub fn next_sitemap(&self) -> (next: Option<String>)
        ensures
            self.awaited().len() == 0 ==> next is None,
            self.awaited().len() > 0 ==> next is Some && next->Some_0@ == self.awaited()[0],
    {
        if self.awaited.len() > 0 {
            Some(self.awaited[0].clone())
        } else {
            None
        }
    }

    /// Takes what the sitemap that was fetched last names, or `None` where
    /// it could not be fetched: that sitemap is done with, and its URLs are
    /// added to what was found. Where no sitemap was awaited nothing changes.
    pub fn supply_urls(&mut self, urls: Option<Vec<String>>)
        ensures
            old(self).awaited().len() == 0 ==> final(self).awaited() == old(self).awaited()
                && final(self).found() == old(self).found(),
            old(self).awaited().len() > 0 ==> final(self).awaited() == old(self).awaited().drop_first(),
            old(self).awaited().len() > 0 && urls is Some ==> final(self).found() == old(
                self,
            ).found() + texts(urls->Some_0@),
            old(self).awaited().len() > 0 && urls is None ==> final(self).found() == old(
                self,
            ).found(),
    {
        let ghost waiting = self.awaited@;
        if self.awaited.pop_front().is_none() {
            return ;
        }
        proof {
            assert(texts(self.awaited@) =~= texts(waiting).drop_first());
        }
        let ghost before = self.found@;
        match urls {
            Some(named) => {
                let mut named = named;
                let ghost added = named@;
                self.found.append(&mut named);
                proof {
                    assert(texts(self.found@) =~= texts(before) + texts(added));
                }
            },
            None => {},
        }
    }

    /// Takes the text of the sitemap that was fetched last, or `None` where
    /// it could not be fetched.
    pub fn supply(&mut self, content: Option<&str>)
        ensures
            old(self).awaited().len() == 0 ==> final(self).awaited() == old(self).awaited()
                && final(self).found() == old(self).found(),
            old(self).awaited().len() > 0 ==> final(self).awaited() == old(self).awaited().drop_first(),
            old(self).awaited().len() > 0 && content is Some ==> final(self).found() == old(
                self,
            ).found() + urls_of(xml_items(content->Some_0@)),
            old(self).awaited().len() > 0 && content is None ==> final(self).found() == old(
                self,
            ).found(),
    {
        match content {
            Some(document) => {
                let urls = extract_sitemap_urls(document);
                self.supply_urls(Some(urls));
            },
            None => {
                self.supply_urls(None);
            },
        }
    }

    /// The pages that were found: in ascending order, each of them once.
    pub fn finish(self) -> (pages: Vec<String>)
        ensures
            strictly_ascending(texts(pages@)),
            same_texts(texts(pages@), self.found()),
    {
        sorted_unique(self.found)
    }
}

/// A list in strictly ascending order names no text twice.
pub proof fn lemma_strictly_ascending_no_duplicates(urls: Seq<Seq<char>>)
    requires
        strictly_ascending(urls),
    ensures
        urls.no_duplicates(),
{
    assert forall|i: int, j: int| 0 <= i < urls.len() && 0 <= j < urls.len() && i != j implies urls[i]
        != urls[j] by {
        if i < j {
            assert(text_at_most(urls[i], urls[j]) && urls[i] != urls[j]);
        } else {
            assert(text_at_most(urls[j], urls[i]) && urls[j] != urls[i]);
        }
    }
}

} // verus!
