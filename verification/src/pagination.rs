//! The pagination engine.
//!
//! A `Page` is the atomic storage unit: a fixed-capacity content buffer, the
//! count of content bytes that are meaningful (the rest is zero padding), an
//! optional successor identity and an identity assigned at store time.
//! `Pages` is an ordered collection of pages of one capacity holding the
//! serialized bytes of a single value.  `paginate` splits a serialized value
//! into pages and `mount_data` rebuilds the value from pages.
//!
//! On the wire a page is a fixed 8-byte header followed by its content:
//! 4 big-endian bytes for `size`, 4 big-endian bytes for `next` (0 meaning
//! "no next"), then exactly the capacity's worth of content bytes.

use crate::serialization::spec_next_of_wire;
use crate::serialization::spec_u32_from_be_bytes;
use crate::serialization::spec_u32_to_be_bytes;
use crate::serialization::spec_wire_of_next;
use crate::serialization::to_option;
use crate::serialization::DeserializationError;
use crate::serialization::Serializable;
use vstd::prelude::*;
use vstd::slice::slice_to_vec;
use vstd::string::StringSliceAdditionalSpecFns;

verus! {

/// The mathematical view of a `Page`.
#[verifier::ext_equal]
pub ghost struct PageView {
    /// Identity: the byte offset of the page's header in the store, or 0
    /// while the page has not been persisted.
    pub id: int,
    /// Identity of the successor page in the chain, if any.
    pub next: Option<u32>,
    /// How many leading content bytes are meaningful.
    pub size: u32,
    /// The full content buffer, padding included.
    pub content: Seq<u8>,
}

impl PageView {
    /// The meaningful content bytes: the first `size`, padding discarded.
    pub open spec fn meaningful(self) -> Seq<u8>
        recommends
            self.size <= self.content.len(),
    {
        self.content.take(self.size as int)
    }

    /// The byte footprint of this page on the wire: header plus content.
    pub open spec fn wire_len(self) -> int {
        8 + self.content.len() as int
    }
}

/// The wire encoding of one page: `size`, then `next` (0 for "no next"),
/// then the content buffer.
pub open spec fn spec_page_bytes(p: PageView) -> Seq<u8> {
    spec_u32_to_be_bytes(p.size) + spec_u32_to_be_bytes(spec_wire_of_next(p.next)) + p.content
}

/// The page read back from a wire encoding: the header is decoded, all bytes
/// after it become the content, and the identity is left unset.  Rejected
/// when fewer than 8 header bytes are present.
pub open spec fn spec_page_of_bytes(b: Seq<u8>) -> Option<PageView> {
    if b.len() >= 8 {
        Some(
            PageView {
                id: 0,
                next: spec_next_of_wire(spec_u32_from_be_bytes(b.subrange(4, 8))),
                size: spec_u32_from_be_bytes(b.subrange(0, 4)),
                content: b.subrange(8, b.len() as int),
            },
        )
    } else {
        None
    }
}

/// The atomic storage unit: a fixed-capacity buffer of content bytes plus a
/// header recording the meaningful length and an optional successor.
#[derive(Debug)]
pub struct Page {
    /// Page identity: its byte offset in the store once persisted.  Not part
    /// of the wire encoding.
    pub id: usize,
    /// Identity of the next page of the same chain, if any.
    pub next: Option<u32>,
    /// Number of meaningful content bytes.
    pub size: u32,
    /// Content buffer; its length is the page capacity, padding included.
    pub content: Vec<u8>,
}

impl View for Page {
    type V = PageView;

    open spec fn view(&self) -> PageView {
        PageView {
            id: self.id as int,
            next: self.next,
            size: self.size,
            content: self.content@,
        }
    }
}

impl Page {
    /// A copy of the page's full content buffer, padding included.
    pub fn extract_content(&self) -> (r: Vec<u8>)
        ensures
            r@ == self@.content,
    {
        slice_to_vec(self.content.as_slice())
    }

    /// Whether the page has not been assigned a store offset yet.
    pub fn is_free(&self) -> (r: bool)
        ensures
            r == (self@.id == 0),
    {
        self.id == 0
    }

    /// The wire footprint of a page whose capacity is `size`: the 8 header
    /// bytes plus the content buffer.
    pub fn get_bytes_size(size: usize) -> (r: usize)
        requires
            size + 8 <= usize::MAX,
        ensures
            r == 8 + size,
    {
        let page_offset: usize = 2 * 4;
        page_offset + size
    }

    /// The same page under the given identity.
    pub fn set_id(self, id: usize) -> (r: Self)
        ensures
            r@ == (PageView { id: id as int, ..self@ }),
    {
        let mut page = self;
        page.id = id;
        page
    }
}

/// The input sequence extended to exactly `size` entries with copies of
/// `default`; the input's own entries are kept unchanged in place.
pub fn fill<T: Copy>(source: &Vec<T>, default: T, size: usize) -> (r: Vec<T>)
    requires
        source@.len() <= size,
    ensures
        r@.len() == size,
        r@.subrange(0, source@.len() as int) == source@,
        forall|i: int| source@.len() <= i < size ==> r@[i] == default,
{
    let mut r: Vec<T> = Vec::with_capacity(size);
    let mut i: usize = 0;
    while i < source.len()
        invariant
            i <= source@.len() <= size,
            r@ == source@.subrange(0, i as int),
        decreases source@.len() - i,
    {
        r.push(source[i]);
        proof {
            assert(r@ =~= source@.subrange(0, i + 1 as int));
        }
        i = i + 1;
    }
    proof {
        assert(r@ =~= source@);
    }
    while r.len() < size
        invariant
            source@.len() <= r@.len() <= size,
            r@.subrange(0, source@.len() as int) == source@,
            forall|j: int| source@.len() <= j < r@.len() ==> r@[j] == default,
        decreases size - r@.len(),
    {
        r.push(default);
        proof {
            assert(r@.subrange(0, source@.len() as int) =~= source@);
        }
    }
    r
}

/// Up to 4 bytes of `from` starting at index `starting`; fewer when the
/// sequence ends earlier.
pub open spec fn spec_take4(b: Seq<u8>, start: int) -> Seq<u8>
    recommends
        start >= 0,
{
    if start >= b.len() {
        Seq::empty()
    } else if start + 4 <= b.len() {
        b.subrange(start, start + 4)
    } else {
        b.subrange(start, b.len() as int)
    }
}

/// Collects up to 4 bytes of `from` starting at `starting`, for decoding one
/// 32-bit header field.
pub fn collect_u32_bytes(from: &[u8], starting: usize) -> (r: Vec<u8>)
    ensures
        r@ == spec_take4(from@, starting as int),
{
    let mut r: Vec<u8> = Vec::with_capacity(4);
    if starting >= from.len() {
        proof {
            assert(r@ =~= spec_take4(from@, starting as int));
        }
        return r;
    }
    let available = from.len() - starting;
    let take: usize = if available < 4 {
        available
    } else {
        4
    };
    let mut j: usize = 0;
    while j < take
        invariant
            j <= take,
            starting + take <= from@.len() <= usize::MAX,
            r@ == from@.subrange(starting as int, starting + j as int),
        decreases take - j,
    {
        r.push(from[starting + j]);
        proof {
            assert(r@ =~= from@.subrange(starting as int, starting + j + 1 as int));
        }
        j = j + 1;
    }
    proof {
        assert(r@ =~= spec_take4(from@, starting as int));
    }
    r
}

/// Decodes the 32-bit big-endian field of `from` at index `starting`; fails
/// exactly when fewer than 4 bytes are available there.
pub fn collect_u32(from: &[u8], starting: usize) -> (r: Result<u32, DeserializationError>)
    ensures
        match r {
            Ok(v) => starting + 4 <= from@.len() && v == spec_u32_from_be_bytes(
                from@.subrange(starting as int, starting + 4 as int),
            ),
            Err(_) => starting + 4 > from@.len(),
        },
{
    let collected = collect_u32_bytes(from, starting);
    let r = u32::deserialize(collected.as_slice());
    proof {
        if starting + 4 <= from@.len() {
            assert(collected@.len() == 4);
        } else {
            assert(collected@.len() < 4);
        }
    }
    r
}

impl Serializable for Page {
    open spec fn ser_spec(m: PageView) -> Seq<u8> {
        spec_page_bytes(m)
    }

    open spec fn deser_spec(b: Seq<u8>) -> Option<PageView> {
        spec_page_of_bytes(b)
    }

    open spec fn codec_exact(m: PageView) -> bool {
        m.id == 0 && m.next != Some(0u32)
    }

    proof fn lemma_codec_roundtrip(m: PageView) {
        lemma_page_bytes_roundtrip(m);
    }

    fn serialize(&self) -> (r: Vec<u8>)
        ensures
            r@ == Self::ser_spec(self@),
    {
        let mut r = self.size.serialize();
        let next_word: u32 = match self.next {
            None => 0,
            Some(v) => v,
        };
        let mut next_bytes = next_word.serialize();
        r.append(&mut next_bytes);
        let mut i: usize = 0;
        while i < self.content.len()
            invariant
                i <= self@.content.len(),
                r@ == spec_u32_to_be_bytes(self@.size) + spec_u32_to_be_bytes(
                    spec_wire_of_next(self@.next),
                ) + self@.content.subrange(0, i as int),
        decreases self@.content.len() - i,
    {
            r.push(self.content[i]);
            proof {
                assert(r@ =~= spec_u32_to_be_bytes(self@.size) + spec_u32_to_be_bytes(
                    spec_wire_of_next(self@.next),
                ) + self@.content.subrange(0, i + 1 as int));
            }
            i = i + 1;
        }
        proof {
            assert(self@.content.subrange(0, self@.content.len() as int) =~= self@.content);
        }
        r
    }

    fn deserialize(bytes: &[u8]) -> (r: Result<Self, DeserializationError>)
        ensures
            match r {
                Ok(v) => Self::deser_spec(bytes@) == Some(v@),
                Err(_) => Self::deser_spec(bytes@) is None,
            },
    {
        let size_field = collect_u32(bytes, 0);
        let next_field = collect_u32(bytes, 4);
        match (size_field, next_field) {
            (Ok(size), Ok(next)) => {
                let mut content: Vec<u8> = Vec::new();
                let mut i: usize = 8;
                while i < bytes.len()
                    invariant
                        8 <= i <= bytes@.len(),
                        content@ == bytes@.subrange(8, i as int),
                    decreases bytes@.len() - i,
                {
                    content.push(bytes[i]);
                    proof {
                        assert(content@ =~= bytes@.subrange(8, i + 1 as int));
                    }
                    i = i + 1;
                }
                let page = Page { id: 0, size, next: to_option(next), content };
                proof {
                    assert(Self::deser_spec(bytes@) == Some(page@));
                }
                Ok(page)
            },
            _ => Err(DeserializationError::new()),
        }
    }
}

/// The mathematical view of a `Pages` collection.
#[verifier::ext_equal]
pub ghost struct PagesView {
    /// The fixed content capacity shared by every page of the collection.
    pub page_size: usize,
    /// The member pages, in chain order.
    pub content: Seq<PageView>,
}

impl PagesView {
    /// The collection's invariant: every member page's content buffer has
    /// exactly the shared capacity.
    pub open spec fn wf(self) -> bool {
        forall|i: int| 0 <= i < self.content.len() ==> #[trigger] self.content[i].content.len()
            == self.page_size
    }
}

/// An ordered collection of pages of one capacity, holding the serialized
/// bytes of a single value.
pub struct Pages {
    /// The fixed content capacity of every member page.
    pub page_size: usize,
    content: Vec<Page>,
}

impl View for Pages {
    type V = PagesView;

    closed spec fn view(&self) -> PagesView {
        PagesView { page_size: self.page_size, content: views(self.content@) }
    }
}

impl Pages {
    pub fn new(page_size: usize, content: Vec<Page>) -> (r: Pages)
        ensures
            r@.page_size == page_size,
            r@.content == views(content@),
    {
        Pages { page_size, content }
    }

    /// Paginates a serializable value: its serialized bytes are split into
    /// pages of capacity `page_size`.
    pub fn from<TSerializable>(object: &TSerializable, page_size: usize) -> (r: Self) where
        TSerializable: Serializable,

        requires
            1 <= page_size <= u32::MAX,
        ensures
            r@.page_size == page_size,
            r@.content == spec_paginate(TSerializable::ser_spec(object@), page_size),
    {
        Pages { page_size, content: paginate(object, page_size) }
    }

    /// The head of the chain, if the collection is not empty.
    pub fn first(&self) -> (r: Option<&Page>)
        ensures
            match r {
                Some(p) => self@.content.len() > 0 && p@ == self@.content[0],
                None => self@.content.len() == 0,
            },
    {
        if self.content.len() == 0 {
            None
        } else {
            Some(&self.content[0])
        }
    }

    /// The fixed content capacity shared by every page of the collection.
    pub fn capacity(&self) -> (r: usize)
        ensures
            r == self@.page_size,
    {
        self.page_size
    }

    /// The number of pages in the collection.
    pub fn len(&self) -> (r: usize)
        ensures
            r == self@.content.len(),
    {
        self.content.len()
    }

    /// The tail of the chain, if the collection is not empty.
    pub fn last(&self) -> (r: Option<&Page>)
        ensures
            match r {
                Some(p) => self@.content.len() > 0 && p@ == self@.content[self@.content.len() - 1],
                None => self@.content.len() == 0,
            },
    {
        if self.content.len() == 0 {
            None
        } else {
            Some(&self.content[self.content.len() - 1])
        }
    }

    /// Borrows the member pages, in chain order.
    pub fn iter(&self) -> (r: &Vec<Page>)
        ensures
            views(r@) == self@.content,
    {
        &self.content
    }

    /// Consumes the collection and hands out its member pages, in chain
    /// order.
    pub fn into_iter(self) -> (r: Vec<Page>)
        ensures
            views(r@) == self@.content,
    {
        self.content
    }

    /// The exact number of bytes the whole collection occupies on the wire:
    /// each page's 8-byte header plus its full content buffer.
    pub fn get_byte_size(&self) -> (r: usize)
        requires
            8 + self@.page_size <= usize::MAX,
            (8 + self@.page_size) * self@.content.len() <= usize::MAX,
        ensures
            r == (8 + self@.page_size) * self@.content.len(),
    {
        Page::get_bytes_size(self.page_size) * self.len()
    }
}

/// The concatenated wire encodings of a sequence of pages, in order.
pub open spec fn spec_pages_payload(ps: Seq<PageView>) -> Seq<u8>
    decreases ps.len(),
{
    if ps.len() == 0 {
        Seq::empty()
    } else {
        spec_page_bytes(ps[0]) + spec_pages_payload(ps.drop_first())
    }
}

/// The pages read back from a payload of pages of capacity `psize`:
/// consecutive chunks of `8 + psize` bytes, each decoded as one page.
/// Rejected when the bytes do not divide into such chunks exactly.
pub open spec fn spec_pages_of_payload(b: Seq<u8>, psize: usize) -> Option<Seq<PageView>>
    decreases b.len(),
{
    if b.len() == 0 {
        Some(Seq::empty())
    } else if b.len() >= 8 + psize {
        match (
            spec_page_of_bytes(b.take(8 + psize as int)),
            spec_pages_of_payload(b.skip(8 + psize as int), psize),
        ) {
            (Some(p), Some(rest)) => Some(seq![p] + rest),
            _ => None,
        }
    } else {
        None
    }
}

/// When every page of a uniform collection round-trips on the wire, so does
/// the whole payload.
proof fn lemma_pages_payload_roundtrip(ps: Seq<PageView>, psize: usize)
    requires
        forall|i: int| 0 <= i < ps.len() ==> (#[trigger] ps[i]).content.len() == psize && ps[i].id
            == 0 && ps[i].next != Some(0u32),
    ensures
        spec_pages_of_payload(spec_pages_payload(ps), psize) == Some(ps),
    decreases ps.len(),
{
    if ps.len() == 0 {
        assert(spec_pages_of_payload(spec_pages_payload(ps), psize) == Some(Seq::<
            PageView,
        >::empty()));
        assert(Seq::<PageView>::empty() =~= ps);
    } else {
        let b = spec_pages_payload(ps);
        let head = ps[0];
        lemma_page_bytes_roundtrip(head);
        assert(spec_page_bytes(head).len() == 8 + psize);
        assert(b.take(8 + psize as int) =~= spec_page_bytes(head));
        assert(b.skip(8 + psize as int) =~= spec_pages_payload(ps.drop_first()));
        lemma_pages_payload_roundtrip(ps.drop_first(), psize);
        assert(seq![head] + ps.drop_first() =~= ps);
    }
}

/// Appending a page to a collection appends its wire encoding to the
/// collection's payload.
pub proof fn lemma_pages_payload_snoc(ps: Seq<PageView>, p: PageView)
    ensures
        spec_pages_payload(ps.push(p)) == spec_pages_payload(ps) + spec_page_bytes(p),
    decreases ps.len(),
{
    reveal_with_fuel(spec_pages_payload, 3);
    if ps.len() == 0 {
        assert(ps.push(p)[0] == p);
        assert(ps.push(p).drop_first() =~= Seq::<PageView>::empty());
        assert(spec_pages_payload(ps.push(p)) =~= spec_pages_payload(ps) + spec_page_bytes(p));
    } else {
        assert(ps.push(p)[0] == ps[0]);
        assert(ps.push(p).drop_first() =~= ps.drop_first().push(p));
        lemma_pages_payload_snoc(ps.drop_first(), p);
        assert(spec_pages_payload(ps.push(p)) =~= spec_pages_payload(ps) + spec_page_bytes(p));
    }
}

/// The payload of two collections back to back is the two payloads back to
/// back.
pub proof fn lemma_pages_payload_concat(a: Seq<PageView>, b: Seq<PageView>)
    ensures
        spec_pages_payload(a + b) == spec_pages_payload(a) + spec_pages_payload(b),
    decreases a.len(),
{
    reveal_with_fuel(spec_pages_payload, 3);
    if a.len() == 0 {
        assert(a + b =~= b);
        assert(spec_pages_payload(a) + spec_pages_payload(b) =~= spec_pages_payload(b));
    } else {
        assert((a + b)[0] == a[0]);
        assert((a + b).drop_first() =~= a.drop_first() + b);
        lemma_pages_payload_concat(a.drop_first(), b);
        assert(spec_pages_payload(a + b) =~= spec_pages_payload(a) + spec_pages_payload(b));
    }
}

/// The wire length of a uniform collection's payload: each of the `n` pages
/// occupies exactly `8 + psize` bytes.
pub proof fn lemma_pages_payload_len_uniform(ps: Seq<PageView>, psize: usize)
    requires
        forall|i: int| 0 <= i < ps.len() ==> (#[trigger] ps[i]).content.len() == psize,
    ensures
        spec_pages_payload(ps).len() == ps.len() * (8 + psize),
    decreases ps.len(),
{
    if ps.len() == 0 {
    } else {
        lemma_pages_payload_len_uniform(ps.drop_first(), psize);
        assert(spec_pages_payload(ps).len() == (8 + psize) + (ps.len() - 1) * (8 + psize));
        assert((8 + psize) + (ps.len() - 1) * (8 + psize) == ps.len() * (8 + psize))
            by (nonlinear_arith);
    }
}

impl Serializable for Pages {
    open spec fn ser_spec(m: PagesView) -> Seq<u8> {
        spec_u32_to_be_bytes(m.page_size as u32) + spec_pages_payload(m.content)
    }

    open spec fn deser_spec(b: Seq<u8>) -> Option<PagesView> {
        if b.len() >= 4 {
            let psize = spec_u32_from_be_bytes(b.subrange(0, 4)) as usize;
            match spec_pages_of_payload(b.skip(4), psize) {
                Some(pages) => Some(PagesView { page_size: psize, content: pages }),
                None => None,
            }
        } else {
            None
        }
    }

    open spec fn codec_exact(m: PagesView) -> bool {
        &&& m.page_size <= u32::MAX
        &&& m.wf()
        &&& forall|i: int| 0 <= i < m.content.len() ==> (#[trigger] m.content[i]).id == 0
            && m.content[i].next != Some(0u32)
    }

    proof fn lemma_codec_roundtrip(m: PagesView) {
        let b = Self::ser_spec(m);
        crate::serialization::lemma_u32_be_bytes_roundtrip(m.page_size as u32);
        assert(b.subrange(0, 4) =~= spec_u32_to_be_bytes(m.page_size as u32));
        assert(b.skip(4) =~= spec_pages_payload(m.content));
        lemma_pages_payload_roundtrip(m.content, m.page_size);
        assert(Self::deser_spec(b)->Some_0 =~= m);
    }

    fn serialize(&self) -> (r: Vec<u8>)
        ensures
            r@ == Self::ser_spec(self@),
    {
        let mut r = self.page_size.serialize();
        let mut i: usize = 0;
        let n = self.content.len();
        proof {
            assert(self@.content.skip(0) =~= self@.content);
            assert(r@ + spec_pages_payload(self@.content) =~= Self::ser_spec(self@));
        }
        while i < n
            invariant
                n == self@.content.len(),
                i <= n,
                views(self.content@) == self@.content,
                r@ + spec_pages_payload(self@.content.skip(i as int)) == Self::ser_spec(self@),
            decreases n - i,
        {
            let mut page_bytes = self.content[i].serialize();
            r.append(&mut page_bytes);
            proof {
                let vs = self@.content;
                assert(vs.skip(i as int)[0] == vs[i as int]);
                assert(vs.skip(i as int).drop_first() =~= vs.skip(i + 1 as int));
                assert(r@ + spec_pages_payload(vs.skip(i + 1 as int)) =~= Self::ser_spec(self@));
            }
            i = i + 1;
        }
        proof {
            assert(self@.content.skip(n as int).len() == 0);
            assert(r@ =~= Self::ser_spec(self@));
        }
        r
    }

    fn deserialize(bytes: &[u8]) -> (r: Result<Self, DeserializationError>)
        ensures
            match r {
                Ok(v) => Self::deser_spec(bytes@) == Some(v@),
                Err(_) => Self::deser_spec(bytes@) is None,
            },
    {
        let prefix = match collect_u32(bytes, 0) {
            Ok(v) => v,
            Err(e) => {
                return Err(e);
            },
        };
        let page_size = prefix as usize;
        proof {
            assert(bytes@.subrange(0, 4) =~= spec_take4(bytes@, 0));
        }
        let mut pages: Vec<Page> = Vec::new();
        let mut offset: usize = 4;
        let n = bytes.len();
        proof {
            assert(parse_splits(
                spec_pages_of_payload(bytes@.skip(4), page_size),
                views(pages@),
                spec_pages_of_payload(bytes@.skip(4), page_size),
            ));
        }
        while offset < n
            invariant
                n == bytes@.len(),
                4 <= offset <= n,
                page_size <= u32::MAX,
                page_size == spec_u32_from_be_bytes(bytes@.subrange(0, 4)) as usize,
                parse_splits(
                    spec_pages_of_payload(bytes@.skip(4), page_size),
                    views(pages@),
                    spec_pages_of_payload(bytes@.skip(offset as int), page_size),
                ),
            decreases n - offset,
        {
            if n - offset < 8 || n - offset - 8 < page_size {
                proof {
                    let rest = bytes@.skip(offset as int);
                    assert(0 < rest.len() < 8 + page_size);
                    assert(spec_pages_of_payload(rest, page_size) is None);
                    assert(spec_pages_of_payload(bytes@.skip(4), page_size) is None);
                }
                return Err(DeserializationError::new());
            }
            let end = offset + 8 + page_size;
            let chunk = vstd::slice::slice_subrange(bytes, offset, end);
            proof {
                assert(chunk@ =~= bytes@.skip(offset as int).take(8 + page_size as int));
            }
            let page = match Page::deserialize(chunk) {
                Ok(p) => p,
                Err(e) => {
                    proof {
                        assert(false);
                    }
                    return Err(e);
                },
            };
            let ghost done0 = views(pages@);
            pages.push(page);
            proof {
                let rest = bytes@.skip(offset as int);
                assert(rest.len() >= 8 + page_size);
                assert(rest.skip(8 + page_size as int) =~= bytes@.skip(end as int));
                let parsed = spec_pages_of_payload(rest, page_size);
                let parsed_rest = spec_pages_of_payload(bytes@.skip(end as int), page_size);
                assert(views(pages@) =~= done0.push(page@));
                if parsed_rest is Some {
                    assert(parsed == Some(seq![page@] + parsed_rest->Some_0));
                    assert(done0 + (seq![page@] + parsed_rest->Some_0) =~= done0.push(page@)
                        + parsed_rest->Some_0);
                } else {
                    assert(parsed is None);
                }
            }
            offset = end;
        }
        proof {
            assert(bytes@.skip(offset as int).len() == 0);
            assert(spec_pages_of_payload(bytes@.skip(offset as int), page_size) == Some(Seq::<
                PageView,
            >::empty()));
            assert(views(pages@) + Seq::<PageView>::empty() =~= views(pages@));
        }
        Ok(Pages { page_size, content: pages })
    }
}

/// Relates a full parse to the pages parsed so far and the parse of the
/// remaining bytes: both succeed together, and the full result is the split.
spec fn parse_splits(
    full: Option<Seq<PageView>>,
    done: Seq<PageView>,
    rest: Option<Seq<PageView>>,
) -> bool {
    match (full, rest) {
        (Some(f), Some(r)) => f == done + r,
        (None, None) => true,
        _ => false,
    }
}

/// The views of a sequence of pages.
pub open spec fn views(ps: Seq<Page>) -> Seq<PageView> {
    ps.map_values(|p: Page| p@)
}

/// The pages a byte sequence splits into at capacity `size`: consecutive
/// chunks of at most `size` bytes in order, each zero-padded to the full
/// capacity, each page's `size` the chunk's true length, identities unset
/// and no chain linkage yet.
pub open spec fn spec_paginate(data: Seq<u8>, size: usize) -> Seq<PageView>
    recommends
        size >= 1,
    decreases data.len(),
        when size >= 1
{
    if data.len() == 0 {
        Seq::empty()
    } else {
        let chunk_len: int = if data.len() < size {
            data.len() as int
        } else {
            size as int
        };
        let page = PageView {
            id: 0,
            next: None,
            size: chunk_len as u32,
            content: data.take(chunk_len) + Seq::new((size - chunk_len) as nat, |i: int| 0u8),
        };
        seq![page] + spec_paginate(data.skip(chunk_len), size)
    }
}

/// The bytes mounted back from a sequence of pages: each page's meaningful
/// content (its first `size` bytes, padding discarded), concatenated in
/// order.
pub open spec fn spec_mounted(ps: Seq<PageView>) -> Seq<u8>
    decreases ps.len(),
{
    if ps.len() == 0 {
        Seq::empty()
    } else {
        ps[0].meaningful() + spec_mounted(ps.drop_first())
    }
}

/// Page count law: splitting `data` at capacity `size` yields exactly
/// `ceil(data.len() / size)` pages; when the capacity divides the length
/// exactly, that is `data.len() / size`.
pub proof fn lemma_page_count(data: Seq<u8>, size: usize)
    requires
        size >= 1,
    ensures
        spec_paginate(data, size).len() == (data.len() + size - 1) / (size as int),
        data.len() as int % (size as int) == 0 ==> spec_paginate(data, size).len() == data.len() as int
            / (size as int),
        data.len() == 0 ==> spec_paginate(data, size).len() == 0,
    decreases data.len(),
{
    let c = size as int;
    let l = data.len() as int;
    if data.len() == 0 {
        vstd::arithmetic::div_mod::lemma_basic_div(c - 1, c);
        vstd::arithmetic::div_mod::lemma_div_of0(c);
    } else if data.len() <= size {
        lemma_page_count(data.skip(l), size);
        assert(spec_paginate(data, size).len() == 1);
        vstd::arithmetic::div_mod::lemma_div_plus_one(l - 1, c);
        vstd::arithmetic::div_mod::lemma_basic_div(l - 1, c);
        if l % c == 0 {
            if l < c {
                vstd::arithmetic::div_mod::lemma_small_mod(l as nat, c as nat);
            }
            vstd::arithmetic::div_mod::lemma_div_by_self(c);
        }
    } else {
        lemma_page_count(data.skip(c), size);
        assert(spec_paginate(data, size).len() == 1 + spec_paginate(data.skip(c), size).len());
        assert(data.skip(c).len() == l - c);
        vstd::arithmetic::div_mod::lemma_div_plus_one(l - 1, c);
        if l % c == 0 {
            vstd::arithmetic::div_mod::lemma_mod_sub_multiples_vanish(l, c);
            vstd::arithmetic::div_mod::lemma_div_plus_one(l - c, c);
        }
    }
}

/// Content slicing law: concatenating each page's meaningful bytes in order
/// reproduces the original byte sequence exactly.
pub proof fn lemma_mounted_paginate(data: Seq<u8>, size: usize)
    requires
        1 <= size <= u32::MAX,
    ensures
        spec_mounted(spec_paginate(data, size)) == data,
    decreases data.len(),
{
    if data.len() == 0 {
        assert(spec_mounted(spec_paginate(data, size)) =~= data);
    } else {
        let chunk_len: int = if data.len() < size {
            data.len() as int
        } else {
            size as int
        };
        let pages = spec_paginate(data, size);
        let rest = data.skip(chunk_len);
        lemma_mounted_paginate(rest, size);
        assert(pages.drop_first() =~= spec_paginate(rest, size));
        assert(pages[0].meaningful() =~= data.take(chunk_len));
        assert(data.take(chunk_len) + data.skip(chunk_len) =~= data);
    }
}

/// A freshly paginated sequence is uniform: every page's content buffer is
/// padded to exactly the capacity, its meaningful length never exceeds the
/// capacity, and no page carries an identity or chain linkage yet.
pub proof fn lemma_paginate_uniform(data: Seq<u8>, size: usize)
    requires
        1 <= size <= u32::MAX,
    ensures
        forall|k: int| 0 <= k < spec_paginate(data, size).len() ==> {
            let p = #[trigger] spec_paginate(data, size)[k];
            &&& p.content.len() == size
            &&& p.size <= size
            &&& p.id == 0
            &&& p.next is None
            &&& forall|j: int| p.size <= j < p.content.len() ==> p.content[j] == 0u8
        },
    decreases data.len(),
{
    if data.len() == 0 {
    } else {
        let chunk_len: int = if data.len() < size {
            data.len() as int
        } else {
            size as int
        };
        lemma_paginate_uniform(data.skip(chunk_len), size);
        let ps = spec_paginate(data, size);
        let tail = spec_paginate(data.skip(chunk_len), size);
        assert forall|k: int| 0 <= k < ps.len() implies {
            let p = #[trigger] ps[k];
            &&& p.content.len() == size
            &&& p.size <= size
            &&& p.id == 0
            &&& p.next is None
            &&& forall|j: int| p.size <= j < p.content.len() ==> p.content[j] == 0u8
        } by {
            if k == 0 {
                let chunk = data.take(chunk_len);
                let pad = Seq::new((size - chunk_len) as nat, |i: int| 0u8);
                assert(ps[0].content == chunk + pad);
                assert(ps[0].content.len() == chunk.len() + pad.len());
                assert(ps[0].size == chunk_len);
                assert forall|j: int| ps[0].size <= j < ps[0].content.len() implies ps[0].content[j]
                    == 0u8 by {
                    assert((chunk + pad)[j] == pad[j - chunk_len]);
                    assert(pad[j - chunk_len] == 0u8);
                }
            } else {
                assert(ps[k] == tail[k - 1]);
            }
        }
    }
}

/// The exact meaningful length of each fresh page: every page but the last
/// holds a full capacity's worth of bytes, and the last holds the remainder.
pub proof fn lemma_paginate_sizes(data: Seq<u8>, size: usize)
    requires
        1 <= size <= u32::MAX,
    ensures
        ({
            let ps = spec_paginate(data, size);
            &&& forall|k: int| 0 <= k < ps.len() - 1 ==> (#[trigger] ps[k]).size == size
            &&& ps.len() > 0 ==> ps[ps.len() - 1].size == data.len() - (ps.len() - 1) * size
        }),
    decreases data.len(),
{
    reveal_with_fuel(spec_paginate, 3);
    if data.len() == 0 {
    } else if data.len() <= size {
        let ps = spec_paginate(data, size);
        assert(data.skip(data.len() as int).len() == 0);
        assert(ps.len() == 1);
        assert(ps[0].size == data.len());
        assert(0 * (size as int) == 0);
    } else {
        let c = size as int;
        lemma_paginate_sizes(data.skip(c), size);
        let ps = spec_paginate(data, size);
        let tail = spec_paginate(data.skip(c), size);
        let n = ps.len() as int;
        assert(n == 1 + tail.len());
        assert forall|k: int| 0 <= k < n - 1 implies (#[trigger] ps[k]).size == size by {
            if k == 0 {
                assert(ps[0].size == size);
            } else {
                assert(ps[k] == tail[k - 1]);
            }
        }
        if tail.len() > 0 {
            assert(ps[n - 1] == tail[tail.len() - 1]);
            assert(tail[tail.len() - 1].size == data.skip(c).len() - (tail.len() - 1) * size);
            assert((n - 2) * c + c == (n - 1) * c) by (nonlinear_arith);
        }
    }
}

/// Reconstruction law: mounting the pages that a value paginates into, at
/// any capacity of at least 1, deserializes back to the value, for every
/// view on which the value's codec is exact.
pub proof fn lemma_reconstruction<T: Serializable>(m: T::V, size: usize)
    requires
        1 <= size <= u32::MAX,
        T::codec_exact(m),
    ensures
        T::deser_spec(spec_mounted(spec_paginate(T::ser_spec(m), size))) == Some(m),
{
    lemma_mounted_paginate(T::ser_spec(m), size);
    T::lemma_codec_roundtrip(m);
}

/// Splits the serialized bytes of `data` into pages of capacity `size`:
/// consecutive chunks in order, the last possibly shorter, each zero-padded
/// to the capacity, with the chunk's true length as the page's `size`.
pub fn paginate<T: Serializable>(data: &T, size: usize) -> (r: Vec<Page>)
    requires
        1 <= size <= u32::MAX,
    ensures
        views(r@) == spec_paginate(T::ser_spec(data@), size),
{
    let bytes: Vec<u8> = data.serialize();
    let mut r: Vec<Page> = Vec::new();
    let mut offset: usize = 0;
    let total = bytes.len();
    proof {
        assert(bytes@.len() == total);
        assert(bytes@.skip(0) =~= bytes@);
        assert(views(r@) + spec_paginate(bytes@, size) =~= spec_paginate(bytes@, size));
    }
    while offset < bytes.len()
        invariant
            1 <= size <= u32::MAX,
            offset <= bytes@.len() <= usize::MAX,
            views(r@) + spec_paginate(bytes@.skip(offset as int), size) == spec_paginate(
                bytes@,
                size,
            ),
        decreases bytes@.len() - offset,
    {
        let remaining = bytes.len() - offset;
        let chunk_len: usize = if remaining < size {
            remaining
        } else {
            size
        };
        let mut chunk: Vec<u8> = Vec::new();
        let mut j: usize = 0;
        while j < chunk_len
            invariant
                j <= chunk_len,
                offset + chunk_len <= bytes@.len() <= usize::MAX,
                chunk@ == bytes@.subrange(offset as int, offset + j as int),
            decreases chunk_len - j,
        {
            chunk.push(bytes[offset + j]);
            proof {
                assert(chunk@ =~= bytes@.subrange(offset as int, offset + j + 1 as int));
            }
            j = j + 1;
        }
        let content = fill(&chunk, 0u8, size);
        let page = Page { id: 0, next: None, size: chunk_len as u32, content };
        proof {
            let ghost old_views = views(r@);
            let rest = bytes@.skip(offset as int);
            assert(chunk@ =~= rest.take(chunk_len as int));
            assert(content@ =~= rest.take(chunk_len as int) + Seq::new(
                (size - chunk_len) as nat,
                |i: int| 0u8,
            ));
            assert(page@ =~= spec_paginate(rest, size)[0]);
        }
        r.push(page);
        proof {
            let rest = bytes@.skip(offset as int);
            assert(views(r@) =~= views(r@).subrange(0, views(r@).len() - 1).push(page@));
            assert(rest.skip(chunk_len as int) =~= bytes@.skip(offset + chunk_len as int));
            assert(views(r@) + spec_paginate(bytes@.skip(offset + chunk_len as int), size)
                =~= spec_paginate(bytes@, size));
        }
        offset = offset + chunk_len;
    }
    proof {
        assert(bytes@.skip(offset as int).len() == 0);
        assert(views(r@) =~= spec_paginate(bytes@, size));
    }
    r
}

/// Whether the pages stand in chain order.  Chain-order validation is not
/// performed: pages are taken in the order supplied, which for a freshly
/// paginated collection is the chain order.
pub fn are_ordered_pages(pages: &[Page]) -> (r: bool)
    ensures
        r == true,
{
    true
}

/// Rebuilds a value from an ordered sequence of pages: each page's first
/// `size` content bytes are kept (padding discarded), concatenated in order,
/// and handed to the target type's deserializer.
pub fn mount_data<T: Serializable>(pages: &[Page]) -> (r: Result<T, DeserializationError>)
    requires
        forall|i: int| 0 <= i < views(pages@).len() ==> #[trigger] views(pages@)[i].size <= views(
            pages@,
        )[i].content.len(),
    ensures
        match r {
            Ok(v) => T::deser_spec(spec_mounted(views(pages@))) == Some(v@),
            Err(_) => T::deser_spec(spec_mounted(views(pages@))) is None,
        },
{
    let _ordered = are_ordered_pages(pages);
    let mut content: Vec<u8> = Vec::new();
    let mut i: usize = 0;
    let n = pages.len();
    proof {
        assert(views(pages@).skip(0) =~= views(pages@));
        assert(content@ + spec_mounted(views(pages@)) =~= spec_mounted(views(pages@)));
    }
    while i < n
        invariant
            forall|k: int| 0 <= k < views(pages@).len() ==> #[trigger] views(pages@)[k].size
                <= views(pages@)[k].content.len(),
            n == pages@.len(),
            i <= n,
            content@ + spec_mounted(views(pages@).skip(i as int)) == spec_mounted(views(pages@)),
        decreases pages@.len() - i,
    {
        let page = vstd::slice::slice_index_get(pages, i);
        let clen = page.content.len();
        proof {
            assert(views(pages@)[i as int] == page@);
        }
        let take_n = page.size as usize;
        let ghost prefix = content@;
        let mut j: usize = 0;
        proof {
            assert(content@ =~= prefix + page@.content.subrange(0, 0));
        }
        while j < take_n
            invariant
                j <= take_n,
                take_n <= clen == page@.content.len(),
                content@ == prefix + page@.content.subrange(0, j as int),
            decreases take_n - j,
        {
            content.push(page.content[j]);
            proof {
                assert(content@ =~= prefix + page@.content.subrange(0, j + 1 as int));
            }
            j = j + 1;
        }
        proof {
            let vs = views(pages@);
            assert(page@ == vs[i as int]);
            assert(content@ =~= prefix + vs[i as int].meaningful());
            assert(vs.skip(i as int).drop_first() =~= vs.skip(i + 1 as int));
            assert(vs.skip(i as int)[0] == vs[i as int]);
            assert(content@ + spec_mounted(vs.skip(i + 1 as int)) =~= spec_mounted(vs));
        }
        i = i + 1;
    }
    proof {
        assert(views(pages@).skip(i as int).len() == 0);
        assert(content@ =~= spec_mounted(views(pages@)));
    }
    T::deserialize(content.as_slice())
}

impl From<&[u8]> for Page {
    /// A freestanding page holding the given bytes: `size` is their count
    /// (narrowed through 32 bits), no successor, identity unset.
    fn from(value: &[u8]) -> (r: Self)
        ensures
            r@ == (PageView {
                id: 0,
                next: None,
                size: value@.len() as u32,
                content: value@,
            }),
    {
        #[verifier::truncate]
        let size = value.len() as u32;
        Page { id: 0, next: None, size, content: slice_to_vec(value) }
    }
}

impl vstd::std_specs::convert::FromSpecImpl<&[u8]> for Page {
    open spec fn obeys_from_spec() -> bool {
        false
    }

    open spec fn from_spec(v: &[u8]) -> Page {
        vstd::pervasive::arbitrary()
    }
}

impl From<&str> for Page {
    /// A freestanding page holding the UTF-8 bytes of the given text:
    /// `size` is their count (narrowed through 32 bits), no successor,
    /// identity unset.
    fn from(value: &str) -> (r: Self)
        ensures
            r@ == (PageView {
                id: 0,
                next: None,
                size: vstd::utf8::encode_utf8(value@).len() as u32,
                content: vstd::utf8::encode_utf8(value@),
            }),
    {
        let content = slice_to_vec(value.as_bytes());
        #[verifier::truncate]
        let size = content.len() as u32;
        Page { id: 0, next: None, size, content }
    }
}

impl vstd::std_specs::convert::FromSpecImpl<&str> for Page {
    open spec fn obeys_from_spec() -> bool {
        false
    }

    open spec fn from_spec(v: &str) -> Page {
        vstd::pervasive::arbitrary()
    }
}

/// Decoding the wire encoding of a page recovers its header fields and
/// content exactly; the identity comes back unset, and a successor identity
/// of 0 cannot be told apart from "no successor" on the wire.
pub proof fn lemma_page_bytes_roundtrip(p: PageView)
    requires
        p.id == 0,
        p.next != Some(0u32),
    ensures
        spec_page_of_bytes(spec_page_bytes(p)) == Some(p),
{
    let b = spec_page_bytes(p);
    crate::serialization::lemma_u32_be_bytes_roundtrip(p.size);
    crate::serialization::lemma_u32_be_bytes_roundtrip(spec_wire_of_next(p.next));
    assert(b.subrange(0, 4) =~= spec_u32_to_be_bytes(p.size));
    assert(b.subrange(4, 8) =~= spec_u32_to_be_bytes(spec_wire_of_next(p.next)));
    assert(b.subrange(8, b.len() as int) =~= p.content);
    assert(spec_page_of_bytes(b)->Some_0 =~= p);
}

/// Page round trip: for any page whose content holds exactly `size` bytes
/// and whose successor is not the wire sentinel, decoding its encoding
/// reproduces `size`, `next` and `content` exactly.
pub proof fn lemma_page_round_trip(p: PageView)
    requires
        p.content.len() == p.size,
        p.next != Some(0u32),
    ensures
        spec_page_of_bytes(spec_page_bytes(p)) is Some,
        spec_page_of_bytes(spec_page_bytes(p))->Some_0.size == p.size,
        spec_page_of_bytes(spec_page_bytes(p))->Some_0.next == p.next,
        spec_page_of_bytes(spec_page_bytes(p))->Some_0.content == p.content,
{
    let q = PageView { id: 0, ..p };
    assert(spec_page_bytes(q) == spec_page_bytes(p));
    lemma_page_bytes_roundtrip(q);
}

} // verus!
