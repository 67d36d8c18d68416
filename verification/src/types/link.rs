//! Hyperlinks found in an assignment's description.
use vstd::prelude::*;
use vstd::utf8::encode_utf8;
use select::document::Document;
use select::predicate::Name;

verus! {

/// A hyperlink: where it points and the text it shows.
#[derive(Debug, Hash)]
pub struct Link {
    pub url: String,
    pub title: String,
}

/// The mathematical value of a `Link`.
pub struct LinkView {
    pub url: Seq<char>,
    pub title: Seq<char>,
}

impl View for Link {
    type V = LinkView;

    open spec fn view(&self) -> LinkView {
        LinkView { url: self.url@, title: self.title@ }
    }
}

impl DeepView for Link {
    type V = LinkView;

    open spec fn deep_view(&self) -> LinkView {
        self@
    }
}

impl Clone for Link {
    fn clone(&self) -> (copy: Link)
        ensures
            copy@ == self@,
    {
        Link { url: self.url.clone(), title: self.title.clone() }
    }
}

impl PartialEq for Link {
    fn eq(&self, other: &Link) -> (same: bool) {
        self.url == other.url && self.title == other.title
    }
}

impl vstd::std_specs::cmp::PartialEqSpecImpl for Link {
    open spec fn obeys_eq_spec() -> bool {
        true
    }

    open spec fn eq_spec(&self, other: &Link) -> bool {
        self.url@ == other.url@ && self.title@ == other.title@
    }
}

impl Eq for Link {

}

impl Link {
    pub fn new(url: String, title: String) -> (link: Link)
        ensures
            link.url == url,
            link.title == title,
    {
        Link { url, title }
    }
}

/// Whether two texts, either of which may be missing, are the same.
pub fn same_text(a: &Option<String>, b: &Option<String>) -> (same: bool)
    ensures
        same == (a.deep_view() == b.deep_view()),
{
    match (a, b) {
        (Some(x), Some(y)) => *x == *y,
        (None, None) => true,
        _ => false,
    }
}

/// Whether two lists hold the same links in the same order.
pub fn same_links(a: &Vec<Link>, b: &Vec<Link>) -> (same: bool)
    ensures
        same == (a.deep_view() == b.deep_view()),
{
    if a.len() != b.len() {
        assert(a.deep_view().len() != b.deep_view().len());
        return false;
    }
    let mut i: usize = 0;
    while i < a.len()
        invariant
            i <= a.len(),
            a.len() == b.len(),
            forall|j: int| 0 <= j < i ==> (#[trigger] a.deep_view()[j]) == b.deep_view()[j],
        decreases a.len() - i,
    {
        if !(a[i] == b[i]) {
            assert(a.deep_view()[i as int] != b.deep_view()[i as int]);
            return false;
        }
        i += 1;
    }
    assert(a.deep_view() =~= b.deep_view());
    true
}

/// A copy of a list of links.
pub fn copy_links(links: &Vec<Link>) -> (copy: Vec<Link>)
    ensures
        copy.deep_view() == links.deep_view(),
{
    let mut copy: Vec<Link> = Vec::new();
    let mut i: usize = 0;
    while i < links.len()
        invariant
            i <= links.len(),
            copy.len() == i,
            forall|j: int| 0 <= j < i ==> (#[trigger] copy.deep_view()[j]) == links.deep_view()[j],
        decreases links.len() - i,
    {
        let ghost before = copy.deep_view();
        let link = links[i].clone();
        copy.push(link);
        assert(copy.deep_view() =~= before.push(link@));
        i += 1;
    }
    assert(copy.deep_view() =~= links.deep_view());
    copy
}

/// An anchor element as the markup parser reports it: the target, where
/// the element names one, and the visible text.
pub type Anchor = (Option<Seq<char>>, Seq<char>);

/// Longest description, in bytes, that is searched for links. A buffer
/// of the markup parser grows in powers of two and cannot pass 2^31
/// bytes, and the parser may write three bytes for one it reads.
pub const MAX_MARKUP_BYTES: usize = 0x2AAA_AAAA;

/// Most `<` that a description may hold to be searched for links. The
/// markup is read into a tree that is then walked by recursion, one call
/// for each level of nesting. Every element of the tree answers to a `<`
/// of the markup or is one of the few the parser supplies around it, so
/// the nesting stays within a small multiple of this number, and the
/// walk within a modest stack.
pub const MAX_MARKUP_TAGS: usize = 256;

/// The byte `<`. In UTF-8 it occurs only as the character `<`.
pub const TAG_MARK: u8 = 0x3C;

/// The `a` elements that `select` finds in a piece of markup, in document
/// order: for each its `href` attribute, where it has one, and the text of
/// the element and its descendants.
pub uninterp spec fn markup_anchors(markup: Seq<char>) -> Seq<(Option<Seq<char>>, Seq<char>)>;

/// Whether an anchor names a target.
pub open spec fn has_target(anchor: Anchor) -> bool {
    anchor.0 is Some
}

/// The link an anchor with a target stands for.
pub open spec fn link_of(anchor: Anchor) -> LinkView {
    LinkView { url: anchor.0->0, title: anchor.1 }
}

/// The links among a sequence of anchors: those with a target, in order.
pub open spec fn links_among(anchors: Seq<Anchor>) -> Seq<LinkView> {
    anchors.filter(|a: Anchor| has_target(a)).map_values(|a: Anchor| link_of(a))
}

/// How many `<` a run of bytes holds.
pub open spec fn tag_marks(bytes: Seq<u8>) -> nat
    decreases bytes.len(),
{
    if bytes.len() == 0 {
        0
    } else {
        tag_marks(bytes.drop_last()) + if bytes.last() == TAG_MARK {
            1nat
        } else {
            0nat
        }
    }
}

/// Whether a description can be searched for links: its UTF-8 form is
/// at most `MAX_MARKUP_BYTES` long and holds at most `MAX_MARKUP_TAGS`
/// times a `<`.
pub open spec fn searchable(markup: Seq<char>) -> bool {
    &&& encode_utf8(markup).len() <= MAX_MARKUP_BYTES
    &&& tag_marks(encode_utf8(markup)) <= MAX_MARKUP_TAGS
}

/// A part of a run of bytes holds no more `<` than the whole.
pub proof fn lemma_tag_marks_take(bytes: Seq<u8>, n: int)
    requires
        0 <= n <= bytes.len(),
    ensures
        tag_marks(bytes.take(n)) <= tag_marks(bytes),
    decreases bytes.len(),
{
    if n == bytes.len() {
        assert(bytes.take(n) =~= bytes);
    } else {
        lemma_tag_marks_take(bytes.drop_last(), n);
        assert(bytes.drop_last().take(n) =~= bytes.take(n));
    }
}

/// The links of a description: none where there is no description or it
/// cannot be searched, else the anchors with a target that the markup
/// holds, in document order.
pub open spec fn links_in(description: Option<Seq<char>>) -> Seq<LinkView> {
    match description {
        Some(markup) => if searchable(markup) {
            links_among(markup_anchors(markup))
        } else {
            Seq::empty()
        },
        None => Seq::empty(),
    }
}

/// Parses the markup with `select::document::Document::from` and walks its
/// `a` elements with `find`, reading `attr("href")` and `text()` of each.
/// Not proved: that what comes out is `markup_anchors` of the markup.
/// Markup that is not `searchable` is left out: beyond `MAX_MARKUP_BYTES`
/// a buffer of the parser overflows, and with more than
/// `MAX_MARKUP_TAGS` times a `<` the tree can be nested so deeply that
/// walking it exhausts the stack.
#[verifier::external_body]
pub(crate) fn find_anchors(markup: &str) -> (anchors: Vec<(Option<String>, String)>)
    requires
        searchable(markup@),
    ensures
        anchors.deep_view() == markup_anchors(markup@),
{
    Document::from(markup)
        .find(Name("a"))
        .map(|node| (node.attr("href").map(|target| target.to_string()), node.text()))
        .collect()
}

/// Turns the anchors that have a target into links and drops the others.
pub fn links_from_anchors(anchors: &Vec<(Option<String>, String)>) -> (links: Vec<Link>)
    ensures
        links.deep_view() == links_among(anchors.deep_view()),
{
    let mut links: Vec<Link> = Vec::new();
    let ghost keep = |a: Anchor| has_target(a);
    let ghost make = |a: Anchor| link_of(a);
    proof {
        assert(anchors.deep_view().take(0) =~= Seq::<Anchor>::empty());
        reveal(Seq::filter);
        assert(links.deep_view() =~= links_among(anchors.deep_view().take(0)));
    }
    let mut i: usize = 0;
    while i < anchors.len()
        invariant
            i <= anchors.len(),
            keep == |a: Anchor| has_target(a),
            make == |a: Anchor| link_of(a),
            links.deep_view() == anchors.deep_view().take(i as int).filter(keep).map_values(make),
        decreases anchors.len() - i,
    {
        let ghost before = anchors.deep_view().take(i as int);
        let ghost anchor = anchors.deep_view()[i as int];
        proof {
            assert(anchors.deep_view().take(i + 1) =~= before.push(anchor));
            before.lemma_filter_push(anchor, keep);
            assert(anchor == anchors@[i as int].deep_view());
        }
        match &anchors[i] {
            (Some(target), text) => {
                let link = Link::new(target.clone(), text.clone());
                let ghost old_links = links.deep_view();
                links.push(link);
                proof {
                    assert(link@ == link_of(anchor));
                    assert(links.deep_view() =~= old_links.push(link@));
                    assert(before.filter(keep).push(anchor).map_values(make) =~= before.filter(
                        keep,
                    ).map_values(make).push(link_of(anchor)));
                }
            },
            (None, _) => {},
        }
        i += 1;
    }
    proof {
        assert(anchors.deep_view().take(i as int) =~= anchors.deep_view());
    }
    links
}

/// Whether a description can be searched for links.
pub fn is_searchable(markup: &str) -> (ok: bool)
    ensures
        ok == searchable(markup@),
{
    let bytes = markup.as_bytes();
    if bytes.len() > MAX_MARKUP_BYTES {
        return false;
    }
    let mut marks: usize = 0;
    let mut i: usize = 0;
    proof {
        assert(bytes@.take(0) =~= Seq::<u8>::empty());
    }
    while i < bytes.len() && marks <= MAX_MARKUP_TAGS
        invariant
            i <= bytes.len(),
            marks == tag_marks(bytes@.take(i as int)),
            marks <= MAX_MARKUP_TAGS + 1,
        decreases bytes.len() - i,
    {
        proof {
            assert(bytes@.take(i + 1).drop_last() =~= bytes@.take(i as int));
            assert(bytes@.take(i + 1).last() == bytes@[i as int]);
        }
        if bytes[i] == TAG_MARK {
            marks += 1;
        }
        i += 1;
    }
    proof {
        lemma_tag_marks_take(bytes@, i as int);
        if i == bytes.len() {
            assert(bytes@.take(i as int) =~= bytes@);
        }
    }
    marks <= MAX_MARKUP_TAGS
}

/// The links of a description, in document order; none where there is
/// no description or it cannot be searched.
pub fn extract_links(description: &Option<String>) -> (links: Vec<Link>)
    ensures
        links.deep_view() == links_in(description.deep_view()),
{
    match description {
        Some(markup) => {
            if is_searchable(markup.as_str()) {
                let anchors = find_anchors(markup.as_str());
                links_from_anchors(&anchors)
            } else {
                let links: Vec<Link> = Vec::new();
                assert(links.deep_view() =~= Seq::<LinkView>::empty());
                links
            }
        },
        None => {
            let links: Vec<Link> = Vec::new();
            assert(links.deep_view() =~= Seq::<LinkView>::empty());
            links
        },
    }
}

} // verus!
