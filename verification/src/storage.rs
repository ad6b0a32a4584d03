//! The storage layer.
//!
//! A `Store` is a byte-addressable sink with a write position: pages are
//! serialized and appended to it, and each page's identity becomes the byte
//! offset at which its header was written.  Storing a collection threads the
//! store through one sequential pass, page 0 first, because each page's
//! identity depends on the position left behind by the previous write; once
//! a page's offset is known, the page before it receives that offset as its
//! successor identity, so the returned pages form an append-order linked
//! list.

use crate::pagination::lemma_pages_payload_concat;
use crate::pagination::lemma_pages_payload_snoc;
use crate::pagination::spec_page_bytes;
use crate::pagination::spec_pages_payload;
use crate::pagination::views;
use crate::pagination::Page;
use crate::pagination::PageView;
use crate::pagination::Pages;
use crate::serialization::Serializable;
use vstd::prelude::*;

verus! {

/// Failure of the underlying byte store: a write or a position query did not
/// complete.  The page being stored keeps its identity unset.
#[derive(Debug)]
pub struct StoreError {
    error: String,
}

impl StoreError {
    /// The message carried by the error.
    pub closed spec fn message(&self) -> Seq<char> {
        self.error@
    }

    pub fn new() -> (r: Self)
        ensures
            r.message() == "Error to write to the store!"@,
    {
        StoreError { error: "Error to write to the store!".to_owned() }
    }
}

/// The bytes held after writing `d` at position `p` of `c`: bytes before `p`
/// are kept, `d` overwrites from `p` on, and whatever of `c` lies beyond the
/// written range is kept too.
pub open spec fn seq_write(c: Seq<u8>, p: int, d: Seq<u8>) -> Seq<u8>
    recommends
        0 <= p <= c.len(),
{
    c.take(p) + d + (if p + d.len() < c.len() {
        c.skip(p + d.len() as int)
    } else {
        Seq::empty()
    })
}

/// Writing nothing leaves the bytes as they were.
pub proof fn lemma_seq_write_empty(c: Seq<u8>, p: int, d: Seq<u8>)
    requires
        0 <= p <= c.len(),
        d.len() == 0,
    ensures
        seq_write(c, p, d) == c,
{
    assert(seq_write(c, p, d) =~= c);
}

/// Two consecutive writes are one write of the concatenation.
pub proof fn lemma_seq_write_chain(c: Seq<u8>, p: int, a: Seq<u8>, b: Seq<u8>)
    requires
        0 <= p <= c.len(),
    ensures
        seq_write(seq_write(c, p, a), p + a.len(), b) == seq_write(c, p, a + b),
{
    let w = seq_write(c, p, a);
    assert(w.take(p + a.len() as int) =~= c.take(p) + a);
    assert(seq_write(w, p + a.len() as int, b) =~= seq_write(c, p, a + b));
}

/// A byte store: a sink holding a byte sequence and a write position, able
/// to answer its position and to write at it.  The collaborator the storage
/// layer borrows for the duration of one store call; implementers choose
/// what `contents`, `pos` and `inv` mean for their medium.
pub trait Store: Sized {
    /// The bytes the store currently holds.
    spec fn contents(&self) -> Seq<u8>;

    /// The current write position.
    spec fn pos(&self) -> int;

    /// The store's well-formedness.
    spec fn inv(&self) -> bool;

    /// Whether the store's operations are guaranteed to succeed, as an
    /// in-memory store's are.  A medium that can fail answers `false`.
    spec fn infallible(&self) -> bool;

    /// A well-formed store's position lies within its held bytes.
    proof fn lemma_inv_bounds(&self)
        requires
            self.inv(),
        ensures
            0 <= self.pos() <= self.contents().len(),
    ;

    /// Queries the current write position without disturbing the store.
    fn position(&mut self) -> (r: Result<usize, StoreError>)
        requires
            old(self).inv(),
        ensures
            final(self).inv(),
            final(self).infallible() == old(self).infallible(),
            old(self).infallible() ==> r is Ok,
            final(self).contents() == old(self).contents(),
            final(self).pos() == old(self).pos(),
            match r {
                Ok(p) => p as int == old(self).pos(),
                Err(_) => true,
            },
    ;

    /// Writes the bytes at the current position and advances it past them.
    /// On failure at most a prefix of them was written, so bytes before the
    /// old position are untouched; nothing is promised of the position.
    fn write_bytes(&mut self, buf: &[u8]) -> (r: Result<(), StoreError>)
        requires
            old(self).inv(),
        ensures
            final(self).inv(),
            final(self).infallible() == old(self).infallible(),
            old(self).infallible() ==> r is Ok,
            match r {
                Ok(_) => final(self).contents() == seq_write(
                    old(self).contents(),
                    old(self).pos(),
                    buf@,
                ) && final(self).pos() == old(self).pos() + buf@.len(),
                Err(_) => exists|k: int|
                    0 <= k <= buf@.len() && final(self).contents() == seq_write(
                        old(self).contents(),
                        old(self).pos(),
                        #[trigger] buf@.subrange(0, k),
                    ),
            },
    ;
}

/// An in-memory byte store: a growable buffer and a write cursor.  Its
/// operations never fail, and their contracts say so.
pub struct MemStore {
    data: Vec<u8>,
    cursor: usize,
}

impl MemStore {
    /// An empty store with the cursor at position 0.
    pub fn new() -> (r: Self)
        ensures
            r.inv(),
            r.contents() == Seq::<u8>::empty(),
            r.pos() == 0,
    {
        MemStore { data: Vec::new(), cursor: 0 }
    }
}

impl Store for MemStore {
    closed spec fn contents(&self) -> Seq<u8> {
        self.data@
    }

    closed spec fn pos(&self) -> int {
        self.cursor as int
    }

    closed spec fn inv(&self) -> bool {
        self.cursor <= self.data@.len()
    }

    open spec fn infallible(&self) -> bool {
        true
    }

    proof fn lemma_inv_bounds(&self) {
    }

    fn position(&mut self) -> (r: Result<usize, StoreError>)
        ensures
            r is Ok,
    {
        Ok(self.cursor)
    }

    fn write_bytes(&mut self, buf: &[u8]) -> (r: Result<(), StoreError>)
        ensures
            r is Ok,
    {
        let ghost c0 = self.data@;
        let ghost p0 = self.cursor as int;
        let mut i: usize = 0;
        let blen = buf.len();
        proof {
            assert(buf@.len() == blen);
            assert(self.data@ =~= seq_write(c0, p0, buf@.subrange(0, 0)));
        }
        while i < buf.len()
            invariant
                i <= buf@.len() <= usize::MAX,
                0 <= p0 <= c0.len(),
                self.cursor == p0 + i,
                self.cursor <= self.data@.len(),
                self.data@ == seq_write(c0, p0, buf@.subrange(0, i as int)),
            decreases buf@.len() - i,
        {
            if self.cursor < self.data.len() {
                self.data.set(self.cursor, buf[i]);
            } else {
                self.data.push(buf[i]);
                let grown = self.data.len();
                proof {
                    assert(self.cursor < grown);
                }
            }
            self.cursor = self.cursor + 1;
            proof {
                assert(self.data@ =~= seq_write(c0, p0, buf@.subrange(0, i + 1 as int)));
            }
            i = i + 1;
        }
        proof {
            assert(buf@.subrange(0, buf@.len() as int) =~= buf@);
        }
        Ok(())
    }
}

/// The views of the pages after a store that began at position `p`: each
/// page's identity becomes the position its header was written at, the pages
/// standing back to back, and each page but the last carries its successor's
/// identity, forming an append-order linked list; the final page has no
/// successor.
pub open spec fn spec_stored(ps: Seq<PageView>, p: int) -> Seq<PageView>
    decreases ps.len(),
{
    if ps.len() == 0 {
        Seq::empty()
    } else {
        let successor = if ps.len() == 1 {
            None
        } else {
            Some((p + ps[0].wire_len()) as u32)
        };
        seq![PageView { id: p, next: successor, ..ps[0] }] + spec_stored(
            ps.drop_first(),
            p + ps[0].wire_len(),
        )
    }
}

/// A store leaves the number and order of pages unchanged; only identities
/// and chain linkage are assigned.
pub proof fn lemma_stored_len(ps: Seq<PageView>, p: int)
    ensures
        spec_stored(ps, p).len() == ps.len(),
    decreases ps.len(),
{
    if ps.len() == 0 {
    } else {
        lemma_stored_len(ps.drop_first(), p + ps[0].wire_len());
    }
}

/// What the `k`-th stored page is: the `k`-th input page, under the identity
/// of the position its header was written at, linked to the offset of the
/// following page, or to nothing when it is the last.
pub proof fn lemma_stored_index(ps: Seq<PageView>, p: int, k: int)
    requires
        0 <= k < ps.len(),
    ensures
        spec_stored(ps, p)[k] == (PageView {
            id: p + spec_pages_payload(ps.take(k)).len(),
            next: if k == ps.len() - 1 {
                None
            } else {
                Some((p + spec_pages_payload(ps.take(k + 1)).len()) as u32)
            },
            ..ps[k]
        }),
    decreases k,
{
    reveal_with_fuel(spec_pages_payload, 3);
    let head_len = ps[0].wire_len();
    assert(spec_page_bytes(ps[0]).len() == head_len);
    if k == 0 {
        assert(ps.take(0) =~= Seq::<PageView>::empty());
        assert(ps.take(1) =~= seq![ps[0]]);
        assert(seq![ps[0]].drop_first() =~= Seq::<PageView>::empty());
        assert(spec_pages_payload(ps.take(1)).len() == head_len);
    } else {
        let rest = ps.drop_first();
        lemma_stored_len(ps, p);
        lemma_stored_len(rest, p + head_len);
        let successor = if ps.len() == 1 {
            None
        } else {
            Some((p + head_len) as u32)
        };
        assert(spec_stored(ps, p) == seq![PageView { id: p, next: successor, ..ps[0] }]
            + spec_stored(rest, p + head_len));
        assert(spec_stored(ps, p)[k] == spec_stored(rest, p + head_len)[k - 1]);
        lemma_stored_index(rest, p + head_len, k - 1);
        assert(ps[k] == rest[k - 1]);
        assert(ps.take(k)[0] == ps[0]);
        assert(ps.take(k).drop_first() =~= rest.take(k - 1));
        assert(spec_pages_payload(ps.take(k)).len() == head_len + spec_pages_payload(
            rest.take(k - 1),
        ).len());
        if k < ps.len() - 1 {
            assert(ps.take(k + 1)[0] == ps[0]);
            assert(ps.take(k + 1).drop_first() =~= rest.take(k));
            assert(spec_pages_payload(ps.take(k + 1)).len() == head_len + spec_pages_payload(
                rest.take(k),
            ).len());
        }
    }
}

/// Chain law: after a store, each page but the last carries exactly the
/// identity of the page after it, and the final page has no successor.
pub proof fn lemma_stored_chain(ps: Seq<PageView>, p: int)
    ensures
        spec_stored(ps, p).len() == ps.len(),
        forall|k: int| 0 <= k < ps.len() - 1 ==> (#[trigger] spec_stored(ps, p)[k]).next == Some(
            spec_stored(ps, p)[k + 1].id as u32,
        ),
        ps.len() > 0 ==> spec_stored(ps, p)[ps.len() - 1].next is None,
{
    lemma_stored_len(ps, p);
    assert forall|k: int| 0 <= k < ps.len() - 1 implies (#[trigger] spec_stored(ps, p)[k]).next
        == Some(spec_stored(ps, p)[k + 1].id as u32) by {
        lemma_stored_index(ps, p, k);
        lemma_stored_index(ps, p, k + 1);
    }
    if ps.len() > 0 {
        lemma_stored_index(ps, p, ps.len() - 1);
    }
}

/// Offset law: storing a uniform collection of capacity `psize` from
/// position `p` places page `k` at `p + k * (8 + psize)`, and the payload
/// written behind them is exactly `count * (8 + psize)` bytes long.
pub proof fn lemma_offset_law(ps: Seq<PageView>, psize: usize, p: int)
    requires
        forall|i: int| 0 <= i < ps.len() ==> (#[trigger] ps[i]).content.len() == psize,
    ensures
        spec_stored(ps, p).len() == ps.len(),
        forall|k: int| 0 <= k < ps.len() ==> (#[trigger] spec_stored(ps, p)[k]).id == p + k * (8
            + psize),
        spec_pages_payload(ps).len() == ps.len() * (8 + psize),
{
    crate::pagination::lemma_pages_payload_len_uniform(ps, psize);
    lemma_stored_len(ps, p);
    assert forall|k: int| 0 <= k < ps.len() implies (#[trigger] spec_stored(ps, p)[k]).id == p + k
        * (8 + psize) by {
        lemma_stored_index(ps, p, k);
        assert forall|i: int| 0 <= i < ps.take(k).len() implies (#[trigger] ps.take(
            k,
        )[i]).content.len() == psize by {
            assert(ps.take(k)[i] == ps[i]);
        }
        crate::pagination::lemma_pages_payload_len_uniform(ps.take(k), psize);
        assert(ps.take(k).len() == k);
    }
}

/// Offset law for a fresh collection: storing the pages that `data`
/// paginates into at capacity `c`, starting at position 0, places page `k`
/// at offset `k * (8 + c)`, and the bytes written for `n` pages end at
/// position `n * (8 + c)`.
pub proof fn lemma_fresh_collection_offsets(data: Seq<u8>, c: usize)
    requires
        1 <= c <= u32::MAX,
    ensures
        ({
            let ps = crate::pagination::spec_paginate(data, c);
            let stored = spec_stored(ps, 0);
            &&& stored.len() == ps.len()
            &&& forall|k: int| 0 <= k < ps.len() ==> (#[trigger] stored[k]).id == k * (8 + c)
            &&& spec_pages_payload(ps).len() == ps.len() * (8 + c)
        }),
{
    let ps = crate::pagination::spec_paginate(data, c);
    crate::pagination::lemma_paginate_uniform(data, c);
    lemma_offset_law(ps, c, 0);
}

/// A value that can be persisted to a byte store, acquiring its identity
/// from the position it was written at.
pub trait Storable: Sized {
    /// What the value asks of the starting position, beyond the store's own
    /// well-formedness.
    spec fn store_req(self, p0: int) -> bool;

    /// What a successful store promises, over the value before and after the
    /// store and the store's bytes and position before and after.
    spec fn store_post(pre: Self, post: Self, c0: Seq<u8>, p0: int, c1: Seq<u8>, p1: int) -> bool;

    /// What a failed store leaves behind in the store's bytes.
    spec fn store_err(pre: Self, c0: Seq<u8>, p0: int, c1: Seq<u8>) -> bool;

    /// Persists the value to the store.  On failure the error is surfaced,
    /// nothing is returned as committed, and whatever was already written
    /// remains in place as `store_err` states.
    fn store<S: Store>(self, store: &mut S) -> (r: Result<Self, StoreError>)
        requires
            old(store).inv(),
            self.store_req(old(store).pos()),
        ensures
            final(store).inv(),
            match r {
                Ok(v) => Self::store_post(
                    self,
                    v,
                    old(store).contents(),
                    old(store).pos(),
                    final(store).contents(),
                    final(store).pos(),
                ),
                Err(_) => Self::store_err(
                    self,
                    old(store).contents(),
                    old(store).pos(),
                    final(store).contents(),
                ),
            },
    ;
}

impl Storable for Page {
    open spec fn store_req(self, p0: int) -> bool {
        true
    }

    /// The stored page is the input page under the identity of the write
    /// position; its wire encoding stands at that position of the store, and
    /// the position has advanced exactly past it.
    open spec fn store_post(
        pre: Page,
        post: Page,
        c0: Seq<u8>,
        p0: int,
        c1: Seq<u8>,
        p1: int,
    ) -> bool {
        &&& post@ == (PageView { id: p0, ..pre@ })
        &&& c1 == seq_write(c0, p0, spec_page_bytes(pre@))
        &&& p1 == p0 + spec_page_bytes(pre@).len()
    }

    /// On failure at most a prefix of the page's encoding was written at the
    /// starting position; bytes before it are untouched.
    open spec fn store_err(pre: Page, c0: Seq<u8>, p0: int, c1: Seq<u8>) -> bool {
        exists|k: int|
            0 <= k <= spec_page_bytes(pre@).len() && c1 == seq_write(
                c0,
                p0,
                #[trigger] spec_page_bytes(pre@).subrange(0, k),
            )
    }

    fn store<S: Store>(self, store: &mut S) -> (r: Result<Self, StoreError>)
        ensures
            final(store).infallible() == old(store).infallible(),
            old(store).infallible() ==> r is Ok,
    {
        let ghost c0 = store.contents();
        let ghost p0 = store.pos();
        proof {
            store.lemma_inv_bounds();
        }
        let source_serialized: Vec<u8> = self.serialize();
        let current_position = store.position();
        let position = match current_position {
            Ok(p) => p,
            Err(e) => {
                proof {
                    assert(store.contents() =~= seq_write(
                        c0,
                        p0,
                        spec_page_bytes(self@).subrange(0, 0),
                    ));
                }
                return Err(e);
            },
        };
        let result = store.write_bytes(source_serialized.as_slice());
        match result {
            Ok(_) => Ok(self.set_id(position)),
            Err(e) => {
                proof {
                    let k = choose|k: int|
                        0 <= k <= source_serialized@.len() && store.contents() == seq_write(
                            c0,
                            p0,
                            #[trigger] source_serialized@.subrange(0, k),
                        );
                    assert(spec_page_bytes(self@).subrange(0, k) == source_serialized@.subrange(
                        0,
                        k,
                    ));
                    assert(store.contents() == seq_write(
                        c0,
                        p0,
                        spec_page_bytes(self@).subrange(0, k),
                    ));
                }
                Err(e)
            },
        }
    }
}

impl Storable for Pages {
    /// Every page offset, including each page's successor offset, must fit
    /// the 32-bit wire field that carries chain linkage.
    open spec fn store_req(self, p0: int) -> bool {
        p0 + spec_pages_payload(self@.content).len() <= u32::MAX
    }

    /// The stored collection keeps its capacity and pages; each page now
    /// carries the offset it was written at, and each page but the last the
    /// offset of its successor.  The concatenated wire encodings stand at
    /// the starting position and the position has advanced exactly past
    /// them.
    open spec fn store_post(
        pre: Pages,
        post: Pages,
        c0: Seq<u8>,
        p0: int,
        c1: Seq<u8>,
        p1: int,
    ) -> bool {
        &&& post@.page_size == pre@.page_size
        &&& post@.content == spec_stored(pre@.content, p0)
        &&& c1 == seq_write(c0, p0, spec_pages_payload(pre@.content))
        &&& p1 == p0 + spec_pages_payload(pre@.content).len()
    }

    /// On failure the pages already stored remain at their offsets: the
    /// store holds the full encodings of the first pages and at most a
    /// prefix of the one that failed.
    open spec fn store_err(pre: Pages, c0: Seq<u8>, p0: int, c1: Seq<u8>) -> bool {
        exists|i: int, k: int|
            {
                &&& 0 <= i < pre@.content.len()
                &&& 0 <= k <= spec_page_bytes(pre@.content[i]).len()
                &&& c1 == seq_write(
                    c0,
                    p0,
                    spec_pages_payload(pre@.content.take(i)) + #[trigger] spec_page_bytes(
                        pre@.content[i],
                    ).subrange(0, k),
                )
            }
    }

    fn store<S: Store>(self, store: &mut S) -> (r: Result<Self, StoreError>)
        ensures
            final(store).infallible() == old(store).infallible(),
            old(store).infallible() ==> r is Ok,
            self@.content.len() == 0 ==> r is Ok,
    {
        let page_size = self.capacity();
        let ghost vs0 = self@.content;
        let ghost c0 = store.contents();
        let ghost p0 = store.pos();
        proof {
            store.lemma_inv_bounds();
        }
        let mut remaining: Vec<Page> = self.into_iter();
        let mut stored: Vec<Page> = Vec::new();
        let ghost n0 = vs0.len();
        proof {
            assert(vs0.take(0) =~= Seq::<PageView>::empty());
            assert(views(stored@) =~= spec_stored(vs0, p0).take(0));
            assert(c0 =~= seq_write(c0, p0, spec_pages_payload(vs0.take(0))));
            assert(views(remaining@) =~= vs0.skip(0));
        }
        while remaining.len() > 0
            invariant
                store.inv(),
                0 <= p0 <= c0.len(),
                p0 + spec_pages_payload(vs0).len() <= u32::MAX,
                stored@.len() + remaining@.len() == n0,
                n0 == vs0.len(),
                self@.content == vs0,
                c0 == old(store).contents(),
                p0 == old(store).pos(),
                store.infallible() == old(store).infallible(),
                views(stored@) == spec_stored(vs0, p0).take(stored@.len() as int),
                views(remaining@) == vs0.skip(stored@.len() as int),
                store.contents() == seq_write(
                    c0,
                    p0,
                    spec_pages_payload(vs0.take(stored@.len() as int)),
                ),
                store.pos() == p0 + spec_pages_payload(vs0.take(stored@.len() as int)).len(),
            decreases remaining@.len(),
        {
            let ghost i = stored@.len() as int;
            let ghost rem0 = remaining@;
            let page = remaining.remove(0);
            proof {
                assert(page@ == vs0.skip(i)[0]);
                assert(page@ == vs0[i]);
                assert(remaining@ =~= rem0.drop_first());
                assert forall|k: int| 0 <= k < remaining@.len() implies views(remaining@)[k]
                    == vs0.skip(i + 1)[k] by {
                    assert(views(rem0)[k + 1] == rem0[k + 1]@);
                }
                assert(views(remaining@) =~= vs0.skip(i + 1));
            }
            let ghost page0 = page;
            let stored_page = match page.store(store) {
                Ok(p) => p,
                Err(e) => {
                    proof {
                        let pre_contents = seq_write(c0, p0, spec_pages_payload(vs0.take(i)));
                        let pre_pos = p0 + spec_pages_payload(vs0.take(i)).len();
                        assert(<Page as Storable>::store_err(
                            page0,
                            pre_contents,
                            pre_pos,
                            store.contents(),
                        ));
                        let k = choose|k: int|
                            0 <= k <= spec_page_bytes(page0@).len() && store.contents()
                                == seq_write(
                                pre_contents,
                                pre_pos,
                                #[trigger] spec_page_bytes(page0@).subrange(0, k),
                            );
                        lemma_seq_write_chain(
                            c0,
                            p0,
                            spec_pages_payload(vs0.take(i)),
                            spec_page_bytes(vs0[i]).subrange(0, k),
                        );
                        assert(0 <= k <= spec_page_bytes(vs0[i]).len());
                        assert(store.contents() == seq_write(
                            c0,
                            p0,
                            spec_pages_payload(vs0.take(i)) + spec_page_bytes(vs0[i]).subrange(
                                0,
                                k,
                            ),
                        ));
                    }
                    return Err(e);
                },
            };
            proof {
                lemma_seq_write_chain(c0, p0, spec_pages_payload(vs0.take(i)), spec_page_bytes(
                    vs0[i],
                ));
                lemma_pages_payload_snoc(vs0.take(i), vs0[i]);
                assert(vs0.take(i + 1) =~= vs0.take(i).push(vs0[i]));
                assert(vs0 =~= vs0.take(i + 1) + vs0.skip(i + 1));
                lemma_pages_payload_concat(vs0.take(i + 1), vs0.skip(i + 1));
                lemma_stored_len(vs0, p0);
                lemma_stored_index(vs0, p0, i);
            }
            let linked_page = if remaining.len() > 0 {
                let successor_at = stored_page.id + 8 + stored_page.content.len();
                Page { next: Some(successor_at as u32), ..stored_page }
            } else {
                Page { next: None, ..stored_page }
            };
            proof {
                assert(linked_page@ == spec_stored(vs0, p0)[i]);
            }
            stored.push(linked_page);
            proof {
                assert(spec_stored(vs0, p0).take(i + 1) =~= spec_stored(vs0, p0).take(i).push(
                    spec_stored(vs0, p0)[i],
                ));
                assert(views(stored@) =~= spec_stored(vs0, p0).take(i + 1));
            }
        }
        proof {
            lemma_stored_len(vs0, p0);
            assert(vs0.take(n0 as int) =~= vs0);
            assert(spec_stored(vs0, p0).take(n0 as int) =~= spec_stored(vs0, p0));
        }
        Ok(Pages::new(page_size, stored))
    }
}

} // verus!
