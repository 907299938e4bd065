//! The on-disk index format: fixed-size pages, each a general header and a
//! payload. A persisted index is a chain of pages in key order, linked by
//! `previous_id`/`next_id`; the file begins with an interval-table page that
//! maps each index name to its inclusive page-id ranges. Page ids start at
//! one; id zero is the chain's terminal sentinel.

use vstd::prelude::*;
use vstd::bytes::*;
use crate::link::{PageLink, spec_link_to_bytes, spec_link_from_bytes, lemma_link_bytes_roundtrip,
    LINK_LENGTH};
use crate::page::{PAGE_SIZE, GENERAL_HEADER_SIZE};

verus! {

/// Page kind: the interval table.
pub const PAGE_KIND_INTERVAL: u16 = 0;

/// Page kind: index entries.
pub const PAGE_KIND_INDEX: u16 = 1;

/// Page kind: row data.
pub const PAGE_KIND_DATA: u16 = 2;

/// Payload bytes available on an index page after the header.
pub const INDEX_PAGE_BODY_SIZE: usize = PAGE_SIZE - GENERAL_HEADER_SIZE;

/// The header every persisted page carries: its id and the chain links.
/// `previous_id`/`next_id` zero means none.
#[derive(Copy, Clone, Debug, Eq, PartialEq, Structural)]
pub struct GeneralHeader {
    pub page_id: u32,
    pub previous_id: u32,
    pub next_id: u32,
    pub space_left: u32,
    pub page_kind: u16,
}

/// An inclusive page-id range attributed to a named index.
#[derive(Copy, Clone, Debug, Eq, PartialEq, Structural)]
pub struct Interval(pub u32, pub u32);

/// A persisted page: the general header and the page's payload.
#[derive(Clone, Debug)]
pub struct GeneralPage<I> {
    pub header: GeneralHeader,
    pub inner: I,
}

/// The payload of a unique-index page: key-sorted `(key, link)` entries.
#[derive(Clone, Debug)]
pub struct UniqueIndexData {
    pub entries: Vec<(i64, PageLink)>,
}

/// The payload of a non-unique-index page: key-sorted `(key, links)`
/// entries.
#[derive(Clone, Debug)]
pub struct NonUniqueIndexData {
    pub entries: Vec<(Vec<u8>, Vec<PageLink>)>,
}

/// The wire form of a general header: four little-endian words and a kind.
pub open spec fn spec_enc_header(h: GeneralHeader) -> Seq<u8> {
    spec_u32_to_le_bytes(h.page_id) + spec_u32_to_le_bytes(h.previous_id) + spec_u32_to_le_bytes(
        h.next_id,
    ) + spec_u32_to_le_bytes(h.space_left) + spec_u16_to_le_bytes(h.page_kind)
}

/// Reads a header back from its eighteen-byte wire form.
pub open spec fn spec_dec_header(s: Seq<u8>) -> GeneralHeader
    recommends
        s.len() == GENERAL_HEADER_SIZE,
{
    GeneralHeader {
        page_id: spec_u32_from_le_bytes(s.subrange(0, 4)),
        previous_id: spec_u32_from_le_bytes(s.subrange(4, 8)),
        next_id: spec_u32_from_le_bytes(s.subrange(8, 12)),
        space_left: spec_u32_from_le_bytes(s.subrange(12, 16)),
        page_kind: spec_u16_from_le_bytes(s.subrange(16, 18)),
    }
}

/// A header is eighteen bytes on the wire and decoding inverts encoding.
pub proof fn lemma_header_roundtrip(h: GeneralHeader)
    ensures
        spec_enc_header(h).len() == GENERAL_HEADER_SIZE,
        spec_dec_header(spec_enc_header(h)) == h,
{
    lemma_auto_spec_u32_to_from_le_bytes();
    lemma_auto_spec_u16_to_from_le_bytes();
    let s = spec_enc_header(h);
    assert(s.subrange(0, 4) =~= spec_u32_to_le_bytes(h.page_id));
    assert(s.subrange(4, 8) =~= spec_u32_to_le_bytes(h.previous_id));
    assert(s.subrange(8, 12) =~= spec_u32_to_le_bytes(h.next_id));
    assert(s.subrange(12, 16) =~= spec_u32_to_le_bytes(h.space_left));
    assert(s.subrange(16, 18) =~= spec_u16_to_le_bytes(h.page_kind));
}

impl GeneralHeader {
    /// Serializes the header to its wire form.
    pub fn encode(&self) -> (r: Vec<u8>)
        ensures
            r@ == spec_enc_header(*self),
            r@.len() == GENERAL_HEADER_SIZE,
    {
        proof {
            lemma_header_roundtrip(*self);
        }
        let mut r = u32_to_le_bytes(self.page_id);
        let mut b = u32_to_le_bytes(self.previous_id);
        r.append(&mut b);
        let mut b = u32_to_le_bytes(self.next_id);
        r.append(&mut b);
        let mut b = u32_to_le_bytes(self.space_left);
        r.append(&mut b);
        let mut b = u16_to_le_bytes(self.page_kind);
        r.append(&mut b);
        r
    }

    /// Reads a header from its wire form.
    pub fn decode(s: &[u8]) -> (r: GeneralHeader)
        requires
            s@.len() == GENERAL_HEADER_SIZE,
        ensures
            r == spec_dec_header(s@),
    {
        GeneralHeader {
            page_id: u32_from_le_bytes(vstd::slice::slice_subrange(s, 0, 4)),
            previous_id: u32_from_le_bytes(vstd::slice::slice_subrange(s, 4, 8)),
            next_id: u32_from_le_bytes(vstd::slice::slice_subrange(s, 8, 12)),
            space_left: u32_from_le_bytes(vstd::slice::slice_subrange(s, 12, 16)),
            page_kind: u16_from_le_bytes(vstd::slice::slice_subrange(s, 16, 18)),
        }
    }
}

/// Bytes of one unique-index entry on the wire.
pub const UNIQUE_ENTRY_SIZE: usize = 20;

/// The wire form of one unique-index entry: the key in two's complement and
/// the link.
pub open spec fn spec_enc_unique_entry(e: (i64, PageLink)) -> Seq<u8> {
    spec_u64_to_le_bytes(e.0 as u64) + spec_link_to_bytes(e.1)
}

/// The wire form of a run of unique-index entries.
pub open spec fn spec_enc_unique_entries(s: Seq<(i64, PageLink)>) -> Seq<u8>
    decreases s.len(),
{
    if s.len() == 0 {
        Seq::empty()
    } else {
        spec_enc_unique_entry(s[0]) + spec_enc_unique_entries(s.skip(1))
    }
}

/// Reads `n` unique-index entries back, ignoring what follows them.
pub open spec fn spec_dec_unique_entries(b: Seq<u8>, n: nat) -> Option<Seq<(i64, PageLink)>>
    decreases n,
{
    if n == 0 {
        Some(Seq::empty())
    } else if b.len() < UNIQUE_ENTRY_SIZE {
        None
    } else {
        let key = spec_u64_from_le_bytes(b.subrange(0, 8)) as i64;
        let link = spec_link_from_bytes(b.subrange(8, 20));
        match spec_dec_unique_entries(b.skip(UNIQUE_ENTRY_SIZE as int), (n - 1) as nat) {
            Some(rest) => Some(seq![(key, link)] + rest),
            None => None,
        }
    }
}

/// A run of entries is twenty bytes each, and decoding inverts encoding
/// whatever follows the run.
pub proof fn lemma_unique_entries_roundtrip(s: Seq<(i64, PageLink)>, tail: Seq<u8>)
    ensures
        spec_enc_unique_entries(s).len() == UNIQUE_ENTRY_SIZE * s.len(),
        spec_dec_unique_entries(spec_enc_unique_entries(s) + tail, s.len() as nat) == Some(s),
    decreases s.len(),
{
    lemma_auto_spec_u64_to_from_le_bytes();
    if s.len() == 0 {
        assert(spec_enc_unique_entries(s) + tail =~= tail);
        assert(spec_dec_unique_entries(tail, 0) == Some(Seq::<(i64, PageLink)>::empty()));
        assert(Seq::<(i64, PageLink)>::empty() =~= s);
    } else {
        lemma_unique_entries_roundtrip(s.skip(1), tail);
        lemma_link_bytes_roundtrip(s[0].1);
        let b = spec_enc_unique_entries(s) + tail;
        assert(b.subrange(0, 8) =~= spec_u64_to_le_bytes(s[0].0 as u64));
        assert(b.subrange(8, 20) =~= spec_link_to_bytes(s[0].1));
        assert(b.skip(UNIQUE_ENTRY_SIZE as int) =~= spec_enc_unique_entries(s.skip(1)) + tail);
        let t = s[0].0;
        assert(((t as u64) as i64) == t) by (bit_vector);
        assert(seq![(s[0].0, s[0].1)] + s.skip(1) =~= s);
        assert((s[0].0, s[0].1) == s[0]);
    }
}

/// The wire form of a run of links.
pub open spec fn spec_enc_links(s: Seq<PageLink>) -> Seq<u8>
    decreases s.len(),
{
    if s.len() == 0 {
        Seq::empty()
    } else {
        spec_link_to_bytes(s[0]) + spec_enc_links(s.skip(1))
    }
}

/// Reads `n` links back, ignoring what follows them.
pub open spec fn spec_dec_links(b: Seq<u8>, n: nat) -> Option<Seq<PageLink>>
    decreases n,
{
    if n == 0 {
        Some(Seq::empty())
    } else if b.len() < LINK_LENGTH {
        None
    } else {
        match spec_dec_links(b.skip(LINK_LENGTH as int), (n - 1) as nat) {
            Some(rest) => Some(seq![spec_link_from_bytes(b.subrange(0, 12))] + rest),
            None => None,
        }
    }
}

/// A run of links is twelve bytes each, and decoding inverts encoding
/// whatever follows the run.
pub proof fn lemma_links_roundtrip(s: Seq<PageLink>, tail: Seq<u8>)
    ensures
        spec_enc_links(s).len() == LINK_LENGTH * s.len(),
        spec_dec_links(spec_enc_links(s) + tail, s.len() as nat) == Some(s),
    decreases s.len(),
{
    if s.len() == 0 {
        assert(spec_enc_links(s) + tail =~= tail);
        assert(Seq::<PageLink>::empty() =~= s);
    } else {
        lemma_links_roundtrip(s.skip(1), tail);
        lemma_link_bytes_roundtrip(s[0]);
        let b = spec_enc_links(s) + tail;
        assert(b.subrange(0, 12) =~= spec_link_to_bytes(s[0]));
        assert(b.skip(LINK_LENGTH as int) =~= spec_enc_links(s.skip(1)) + tail);
        assert(seq![s[0]] + s.skip(1) =~= s);
    }
}

/// Bytes one non-unique entry takes on the wire.
pub open spec fn spec_nu_entry_size(e: (Seq<u8>, Seq<PageLink>)) -> int {
    8 + e.0.len() + LINK_LENGTH * e.1.len()
}

/// The wire form of one non-unique entry: the key length, the key bytes,
/// the link count, then the links.
pub open spec fn spec_enc_nu_entry(e: (Seq<u8>, Seq<PageLink>)) -> Seq<u8> {
    spec_u32_to_le_bytes(e.0.len() as u32) + e.0 + spec_u32_to_le_bytes(e.1.len() as u32)
        + spec_enc_links(e.1)
}

/// The wire form of a run of non-unique entries.
pub open spec fn spec_enc_nu_entries(s: Seq<(Seq<u8>, Seq<PageLink>)>) -> Seq<u8>
    decreases s.len(),
{
    if s.len() == 0 {
        Seq::empty()
    } else {
        spec_enc_nu_entry(s[0]) + spec_enc_nu_entries(s.skip(1))
    }
}

/// Reads one non-unique entry, returning it and the bytes it used.
pub open spec fn spec_dec_nu_entry(b: Seq<u8>) -> Option<((Seq<u8>, Seq<PageLink>), int)> {
    if b.len() < 4 {
        None
    } else {
        let klen = spec_u32_from_le_bytes(b.subrange(0, 4)) as int;
        if b.len() < 4 + klen + 4 {
            None
        } else {
            let key = b.subrange(4, 4 + klen);
            let n = spec_u32_from_le_bytes(b.subrange(4 + klen, 8 + klen)) as nat;
            match spec_dec_links(b.skip(8 + klen), n) {
                Some(links) => Some(((key, links), 8 + klen + LINK_LENGTH * n)),
                None => None,
            }
        }
    }
}

/// Reads `n` non-unique entries back, ignoring what follows them.
pub open spec fn spec_dec_nu_entries(b: Seq<u8>, n: nat) -> Option<Seq<(Seq<u8>, Seq<PageLink>)>>
    decreases n,
{
    if n == 0 {
        Some(Seq::empty())
    } else {
        match spec_dec_nu_entry(b) {
            Some((e, used)) => match spec_dec_nu_entries(b.skip(used), (n - 1) as nat) {
                Some(rest) => Some(seq![e] + rest),
                None => None,
            },
            None => None,
        }
    }
}

/// Whether every key and bucket of a run of non-unique entries fits the
/// wire form's length prefixes.
pub open spec fn spec_nu_entries_wf(s: Seq<(Seq<u8>, Seq<PageLink>)>) -> bool {
    forall|i: int|
        0 <= i < s.len() ==> (#[trigger] s[i]).0.len() <= u32::MAX && s[i].1.len() <= u32::MAX
}

/// Decoding a run of non-unique entries inverts encoding it, whatever
/// follows the run.
pub proof fn lemma_nu_entries_roundtrip(s: Seq<(Seq<u8>, Seq<PageLink>)>, tail: Seq<u8>)
    requires
        spec_nu_entries_wf(s),
    ensures
        spec_dec_nu_entries(spec_enc_nu_entries(s) + tail, s.len() as nat) == Some(s),
    decreases s.len(),
{
    lemma_auto_spec_u32_to_from_le_bytes();
    if s.len() == 0 {
        assert(Seq::<(Seq<u8>, Seq<PageLink>)>::empty() =~= s);
    } else {
        assert(spec_nu_entries_wf(s.skip(1))) by {
            assert forall|i: int| 0 <= i < s.skip(1).len() implies (#[trigger] s.skip(
                1,
            )[i]).0.len() <= u32::MAX && s.skip(1)[i].1.len() <= u32::MAX by {
                assert(s.skip(1)[i] == s[i + 1]);
            }
        }
        lemma_nu_entries_roundtrip(s.skip(1), tail);
        lemma_links_roundtrip(s[0].1, spec_enc_nu_entries(s.skip(1)) + tail);
        let e = s[0];
        let klen = e.0.len() as int;
        let b = spec_enc_nu_entries(s) + tail;
        assert(b.subrange(0, 4) =~= spec_u32_to_le_bytes(e.0.len() as u32));
        assert(b.subrange(4, 4 + klen) =~= e.0);
        assert(b.subrange(4 + klen, 8 + klen) =~= spec_u32_to_le_bytes(e.1.len() as u32));
        assert(b.skip(8 + klen) =~= spec_enc_links(e.1) + (spec_enc_nu_entries(s.skip(1)) + tail));
        let used = 8 + klen + LINK_LENGTH * e.1.len();
        assert(b.skip(used) =~= spec_enc_nu_entries(s.skip(1)) + tail);
        assert(spec_dec_nu_entry(b) == Some(((e.0, e.1), used)));
        assert((e.0, e.1) == e);
        assert(seq![e] + s.skip(1) =~= s);
    }
}

/// A run of zero bytes used to pad a page to its fixed size.
pub open spec fn spec_zeros(n: int) -> Seq<u8> {
    Seq::new(n as nat, |i: int| 0u8)
}

/// Appending one entry extends the run's wire form at its end.
pub proof fn lemma_enc_unique_snoc(s: Seq<(i64, PageLink)>, e: (i64, PageLink))
    ensures
        spec_enc_unique_entries(s.push(e)) == spec_enc_unique_entries(s) + spec_enc_unique_entry(
            e,
        ),
    decreases s.len(),
{
    if s.len() == 0 {
        assert(s.push(e)[0] == e);
        assert(s.push(e).skip(1) =~= Seq::<(i64, PageLink)>::empty());
        assert(spec_enc_unique_entries(s.push(e)) == spec_enc_unique_entry(s.push(e)[0])
            + spec_enc_unique_entries(s.push(e).skip(1)));
        assert(spec_enc_unique_entries(s.push(e).skip(1)).len() == 0);
        assert(spec_enc_unique_entries(s.push(e)) =~= spec_enc_unique_entry(e));
        assert(spec_enc_unique_entries(s) + spec_enc_unique_entry(e) =~= spec_enc_unique_entry(e));
    } else {
        assert(s.push(e)[0] == s[0]);
        assert(s.push(e).skip(1) =~= s.skip(1).push(e));
        lemma_enc_unique_snoc(s.skip(1), e);
        assert(spec_enc_unique_entries(s.push(e)) == spec_enc_unique_entry(s[0])
            + spec_enc_unique_entries(s.skip(1).push(e)));
        assert(spec_enc_unique_entries(s.push(e)) =~= spec_enc_unique_entries(s)
            + spec_enc_unique_entry(e));
    }
}

/// Appending one link extends the run's wire form at its end.
pub proof fn lemma_enc_links_snoc(s: Seq<PageLink>, l: PageLink)
    ensures
        spec_enc_links(s.push(l)) == spec_enc_links(s) + spec_link_to_bytes(l),
    decreases s.len(),
{
    if s.len() == 0 {
        assert(s.push(l)[0] == l);
        assert(s.push(l).skip(1) =~= Seq::<PageLink>::empty());
        assert(spec_enc_links(s.push(l)) == spec_link_to_bytes(s.push(l)[0]) + spec_enc_links(
            s.push(l).skip(1),
        ));
        assert(spec_enc_links(s.push(l).skip(1)).len() == 0);
        assert(spec_enc_links(s.push(l)) =~= spec_link_to_bytes(l));
        assert(spec_enc_links(s) + spec_link_to_bytes(l) =~= spec_link_to_bytes(l));
    } else {
        assert(s.push(l)[0] == s[0]);
        assert(s.push(l).skip(1) =~= s.skip(1).push(l));
        lemma_enc_links_snoc(s.skip(1), l);
        assert(spec_enc_links(s.push(l)) =~= spec_enc_links(s) + spec_link_to_bytes(l));
    }
}

/// Appending one entry extends the run's wire form at its end.
pub proof fn lemma_enc_nu_snoc(s: Seq<(Seq<u8>, Seq<PageLink>)>, e: (Seq<u8>, Seq<PageLink>))
    ensures
        spec_enc_nu_entries(s.push(e)) == spec_enc_nu_entries(s) + spec_enc_nu_entry(e),
    decreases s.len(),
{
    if s.len() == 0 {
        assert(s.push(e)[0] == e);
        assert(s.push(e).skip(1) =~= Seq::<(Seq<u8>, Seq<PageLink>)>::empty());
        assert(spec_enc_nu_entries(s.push(e)) == spec_enc_nu_entry(s.push(e)[0])
            + spec_enc_nu_entries(s.push(e).skip(1)));
        assert(spec_enc_nu_entries(s.push(e).skip(1)).len() == 0);
        assert(spec_enc_nu_entries(s.push(e)) =~= spec_enc_nu_entry(e));
        assert(spec_enc_nu_entries(s) + spec_enc_nu_entry(e) =~= spec_enc_nu_entry(e));
    } else {
        assert(s.push(e)[0] == s[0]);
        assert(s.push(e).skip(1) =~= s.skip(1).push(e));
        lemma_enc_nu_snoc(s.skip(1), e);
        assert(spec_enc_nu_entries(s.push(e)) =~= spec_enc_nu_entries(s) + spec_enc_nu_entry(e));
    }
}

/// The entries a run of non-unique pairs stands for, with views taken.
pub open spec fn spec_nu_model(s: Seq<(Vec<u8>, Vec<PageLink>)>) -> Seq<(Seq<u8>, Seq<PageLink>)> {
    Seq::new(s.len(), |i: int| (s[i].0@, s[i].1@))
}

/// A unique-index page fits its fixed-size wire form.
pub open spec fn spec_upage_wf(p: GeneralPage<UniqueIndexData>) -> bool {
    4 + UNIQUE_ENTRY_SIZE * p.inner.entries@.len() <= INDEX_PAGE_BODY_SIZE
}

/// A non-unique-index page fits its fixed-size wire form.
pub open spec fn spec_npage_wf(p: GeneralPage<NonUniqueIndexData>) -> bool {
    &&& 4 + spec_enc_nu_entries(spec_nu_model(p.inner.entries@)).len() <= INDEX_PAGE_BODY_SIZE
    &&& p.inner.entries@.len() <= u32::MAX
    &&& spec_nu_entries_wf(spec_nu_model(p.inner.entries@))
}

/// The fixed-size wire form of a unique-index page: header, entry count,
/// entries, zero padding.
pub open spec fn spec_enc_upage(p: GeneralPage<UniqueIndexData>) -> Seq<u8> {
    let body = spec_u32_to_le_bytes(p.inner.entries@.len() as u32) + spec_enc_unique_entries(
        p.inner.entries@,
    );
    spec_enc_header(p.header) + body + spec_zeros(INDEX_PAGE_BODY_SIZE - body.len())
}

/// The fixed-size wire form of a non-unique-index page.
pub open spec fn spec_enc_npage(p: GeneralPage<NonUniqueIndexData>) -> Seq<u8> {
    let body = spec_u32_to_le_bytes(p.inner.entries@.len() as u32) + spec_enc_nu_entries(
        spec_nu_model(p.inner.entries@),
    );
    spec_enc_header(p.header) + body + spec_zeros(INDEX_PAGE_BODY_SIZE - body.len())
}

/// A page's wire form is one page long and decodes back to the page.
pub proof fn lemma_upage_roundtrip(p: GeneralPage<UniqueIndexData>)
    requires
        spec_upage_wf(p),
    ensures
        spec_enc_upage(p).len() == PAGE_SIZE,
        spec_dec_header(spec_enc_upage(p).subrange(0, GENERAL_HEADER_SIZE as int)) == p.header,
        spec_u32_from_le_bytes(spec_enc_upage(p).subrange(18, 22)) == p.inner.entries@.len(),
        spec_dec_unique_entries(spec_enc_upage(p).skip(22), p.inner.entries@.len() as nat)
            == Some(p.inner.entries@),
{
    lemma_auto_spec_u32_to_from_le_bytes();
    lemma_header_roundtrip(p.header);
    lemma_unique_entries_roundtrip(
        p.inner.entries@,
        spec_zeros(
            INDEX_PAGE_BODY_SIZE - 4 - UNIQUE_ENTRY_SIZE * p.inner.entries@.len(),
        ),
    );
    let b = spec_enc_upage(p);
    assert(b.subrange(0, GENERAL_HEADER_SIZE as int) =~= spec_enc_header(p.header));
    assert(b.subrange(18, 22) =~= spec_u32_to_le_bytes(p.inner.entries@.len() as u32));
    assert(b.skip(22) =~= spec_enc_unique_entries(p.inner.entries@) + spec_zeros(
        INDEX_PAGE_BODY_SIZE - 4 - UNIQUE_ENTRY_SIZE * p.inner.entries@.len(),
    ));
}

/// A page's wire form is one page long and decodes back to the page.
pub proof fn lemma_npage_roundtrip(p: GeneralPage<NonUniqueIndexData>)
    requires
        spec_npage_wf(p),
    ensures
        spec_enc_npage(p).len() == PAGE_SIZE,
        spec_dec_header(spec_enc_npage(p).subrange(0, GENERAL_HEADER_SIZE as int)) == p.header,
        spec_u32_from_le_bytes(spec_enc_npage(p).subrange(18, 22)) == p.inner.entries@.len(),
        spec_dec_nu_entries(spec_enc_npage(p).skip(22), p.inner.entries@.len() as nat) == Some(
            spec_nu_model(p.inner.entries@),
        ),
{
    lemma_auto_spec_u32_to_from_le_bytes();
    lemma_header_roundtrip(p.header);
    let m = spec_nu_model(p.inner.entries@);
    lemma_nu_entries_roundtrip(
        m,
        spec_zeros(INDEX_PAGE_BODY_SIZE - 4 - spec_enc_nu_entries(m).len()),
    );
    let b = spec_enc_npage(p);
    assert(b.subrange(0, GENERAL_HEADER_SIZE as int) =~= spec_enc_header(p.header));
    assert(b.subrange(18, 22) =~= spec_u32_to_le_bytes(p.inner.entries@.len() as u32));
    assert(b.skip(22) =~= spec_enc_nu_entries(m) + spec_zeros(
        INDEX_PAGE_BODY_SIZE - 4 - spec_enc_nu_entries(m).len(),
    ));
}

/// Serializes a unique-index page to its fixed-size wire form.
pub fn encode_upage(p: &GeneralPage<UniqueIndexData>) -> (r: Vec<u8>)
    requires
        spec_upage_wf(*p),
    ensures
        r@ == spec_enc_upage(*p),
        r@.len() == PAGE_SIZE,
{
    proof {
        lemma_upage_roundtrip(*p);
    }
    let mut r = p.header.encode();
    let mut b = u32_to_le_bytes(p.inner.entries.len() as u32);
    r.append(&mut b);
    let ghost prefix = r@;
    let mut i: usize = 0;
    while i < p.inner.entries.len()
        invariant
            i <= p.inner.entries@.len(),
            4 + UNIQUE_ENTRY_SIZE * p.inner.entries@.len() <= INDEX_PAGE_BODY_SIZE,
            r@ == prefix + spec_enc_unique_entries(p.inner.entries@.subrange(0, i as int)),
            prefix.len() == GENERAL_HEADER_SIZE + 4,
        decreases p.inner.entries@.len() - i,
    {
        let e = p.inner.entries[i];
        let mut kb = u64_to_le_bytes(e.0 as u64);
        r.append(&mut kb);
        let mut lb = e.1.to_bytes();
        r.append(&mut lb);
        proof {
            lemma_enc_unique_snoc(p.inner.entries@.subrange(0, i as int), e);
            assert(p.inner.entries@.subrange(0, i + 1) =~= p.inner.entries@.subrange(
                0,
                i as int,
            ).push(e));
            lemma_unique_entries_roundtrip(p.inner.entries@.subrange(0, i + 1), Seq::empty());
            assert(r@ =~= prefix + spec_enc_unique_entries(p.inner.entries@.subrange(0, i + 1)));
        }
        i = i + 1;
    }
    proof {
        assert(p.inner.entries@.subrange(0, p.inner.entries@.len() as int) =~= p.inner.entries@);
        lemma_unique_entries_roundtrip(p.inner.entries@, Seq::empty());
    }
    let mut j: usize = r.len();
    while j < PAGE_SIZE
        invariant
            r@.len() == j,
            j <= PAGE_SIZE,
            r@ == prefix + spec_enc_unique_entries(p.inner.entries@) + spec_zeros(
                j - prefix.len() - UNIQUE_ENTRY_SIZE * p.inner.entries@.len(),
            ),
            prefix.len() + UNIQUE_ENTRY_SIZE * p.inner.entries@.len() <= j,
            prefix.len() == GENERAL_HEADER_SIZE + 4,
        decreases PAGE_SIZE - j,
    {
        r.push(0u8);
        proof {
            assert(r@ =~= prefix + spec_enc_unique_entries(p.inner.entries@) + spec_zeros(
                j + 1 - prefix.len() - UNIQUE_ENTRY_SIZE * p.inner.entries@.len(),
            ));
        }
        j = j + 1;
    }
    proof {
        assert(r@ =~= spec_enc_upage(*p));
    }
    r
}

/// Serializes a non-unique-index page to its fixed-size wire form.
pub fn encode_npage(p: &GeneralPage<NonUniqueIndexData>) -> (r: Vec<u8>)
    requires
        spec_npage_wf(*p),
    ensures
        r@ == spec_enc_npage(*p),
        r@.len() == PAGE_SIZE,
{
    proof {
        lemma_npage_roundtrip(*p);
    }
    let ghost m = spec_nu_model(p.inner.entries@);
    let mut r = p.header.encode();
    let mut b = u32_to_le_bytes(p.inner.entries.len() as u32);
    r.append(&mut b);
    let ghost prefix = r@;
    proof {
        assert(m.subrange(0, 0) =~= Seq::<(Seq<u8>, Seq<PageLink>)>::empty());
    }
    let mut i: usize = 0;
    while i < p.inner.entries.len()
        invariant
            i <= p.inner.entries@.len(),
            spec_npage_wf(*p),
            m == spec_nu_model(p.inner.entries@),
            r@ == prefix + spec_enc_nu_entries(m.subrange(0, i as int)),
            prefix.len() == GENERAL_HEADER_SIZE + 4,
        decreases p.inner.entries@.len() - i,
    {
        let e = &p.inner.entries[i];
        let mut kb = u32_to_le_bytes(e.0.len() as u32);
        r.append(&mut kb);
        let ghost before_key = r@;
        let mut ki: usize = 0;
        while ki < e.0.len()
            invariant
                ki <= e.0@.len(),
                r@ == before_key + e.0@.subrange(0, ki as int),
            decreases e.0@.len() - ki,
        {
            r.push(e.0[ki]);
            proof {
                assert(r@ =~= before_key + e.0@.subrange(0, ki + 1));
            }
            ki = ki + 1;
        }
        proof {
            assert(e.0@.subrange(0, e.0@.len() as int) =~= e.0@);
        }
        let mut cb = u32_to_le_bytes(e.1.len() as u32);
        r.append(&mut cb);
        let ghost before_links = r@;
        proof {
            assert(e.1@.subrange(0, 0) =~= Seq::<PageLink>::empty());
        }
        let mut li: usize = 0;
        while li < e.1.len()
            invariant
                li <= e.1@.len(),
                r@ == before_links + spec_enc_links(e.1@.subrange(0, li as int)),
            decreases e.1@.len() - li,
        {
            let mut lb = e.1[li].to_bytes();
            r.append(&mut lb);
            proof {
                lemma_enc_links_snoc(e.1@.subrange(0, li as int), e.1@[li as int]);
                assert(e.1@.subrange(0, li + 1) =~= e.1@.subrange(0, li as int).push(
                    e.1@[li as int],
                ));
            }
            li = li + 1;
        }
        proof {
            assert(e.1@.subrange(0, e.1@.len() as int) =~= e.1@);
            assert(r@ =~= prefix + spec_enc_nu_entries(m.subrange(0, i as int))
                + spec_enc_nu_entry(m[i as int]));
            lemma_enc_nu_snoc(m.subrange(0, i as int), m[i as int]);
            assert(m.subrange(0, i + 1) =~= m.subrange(0, i as int).push(m[i as int]));
            assert(r@ =~= prefix + spec_enc_nu_entries(m.subrange(0, i + 1)));
        }
        i = i + 1;
    }
    proof {
        assert(m.subrange(0, m.len() as int) =~= m);
    }
    let ghost used = prefix.len() + spec_enc_nu_entries(m).len();
    let mut j: usize = r.len();
    while j < PAGE_SIZE
        invariant
            r@.len() == j,
            j <= PAGE_SIZE,
            used <= j,
            r@ == prefix + spec_enc_nu_entries(m) + spec_zeros(j - used),
            used == prefix.len() + spec_enc_nu_entries(m).len(),
            prefix.len() == GENERAL_HEADER_SIZE + 4,
        decreases PAGE_SIZE - j,
    {
        r.push(0u8);
        proof {
            assert(r@ =~= prefix + spec_enc_nu_entries(m) + spec_zeros(j + 1 - used));
        }
        j = j + 1;
    }
    proof {
        assert(r@ =~= spec_enc_npage(*p));
    }
    r
}

/// All entries of a run of unique-index payloads, in page order.
pub open spec fn spec_concat_u(s: Seq<UniqueIndexData>) -> Seq<(i64, PageLink)>
    decreases s.len(),
{
    if s.len() == 0 {
        Seq::empty()
    } else {
        s[0].entries@ + spec_concat_u(s.skip(1))
    }
}

/// All entries of a run of non-unique-index payloads, in page order.
pub open spec fn spec_concat_n(s: Seq<NonUniqueIndexData>) -> Seq<(Seq<u8>, Seq<PageLink>)>
    decreases s.len(),
{
    if s.len() == 0 {
        Seq::empty()
    } else {
        spec_nu_model(s[0].entries@) + spec_concat_n(s.skip(1))
    }
}

/// Appending one payload extends the run's entries at their end.
pub proof fn lemma_concat_u_snoc(s: Seq<UniqueIndexData>, d: UniqueIndexData)
    ensures
        spec_concat_u(s.push(d)) == spec_concat_u(s) + d.entries@,
    decreases s.len(),
{
    if s.len() == 0 {
        assert(s.push(d)[0] == d);
        assert(s.push(d).skip(1) =~= Seq::<UniqueIndexData>::empty());
        assert(spec_concat_u(s.push(d)) == s.push(d)[0].entries@ + spec_concat_u(
            s.push(d).skip(1),
        ));
        assert(spec_concat_u(s.push(d).skip(1)).len() == 0);
        assert(spec_concat_u(s.push(d)) =~= d.entries@);
        assert(spec_concat_u(s) + d.entries@ =~= d.entries@);
    } else {
        assert(s.push(d)[0] == s[0]);
        assert(s.push(d).skip(1) =~= s.skip(1).push(d));
        lemma_concat_u_snoc(s.skip(1), d);
        assert(spec_concat_u(s.push(d)) =~= spec_concat_u(s) + d.entries@);
    }
}

/// Appending one payload extends the run's entries at their end.
pub proof fn lemma_concat_n_snoc(s: Seq<NonUniqueIndexData>, d: NonUniqueIndexData)
    ensures
        spec_concat_n(s.push(d)) == spec_concat_n(s) + spec_nu_model(d.entries@),
    decreases s.len(),
{
    if s.len() == 0 {
        assert(s.push(d)[0] == d);
        assert(s.push(d).skip(1) =~= Seq::<NonUniqueIndexData>::empty());
        assert(spec_concat_n(s.push(d)) == spec_nu_model(s.push(d)[0].entries@) + spec_concat_n(
            s.push(d).skip(1),
        ));
        assert(spec_concat_n(s.push(d).skip(1)).len() == 0);
        assert(spec_concat_n(s.push(d)) =~= spec_nu_model(d.entries@));
        assert(spec_concat_n(s) + spec_nu_model(d.entries@) =~= spec_nu_model(d.entries@));
    } else {
        assert(s.push(d)[0] == s[0]);
        assert(s.push(d).skip(1) =~= s.skip(1).push(d));
        lemma_concat_n_snoc(s.skip(1), d);
        assert(spec_concat_n(s.push(d)) =~= spec_concat_n(s) + spec_nu_model(d.entries@));
    }
}

/// Unique-index entries a page can hold.
pub const UNIQUE_PAGE_CAPACITY: usize = (INDEX_PAGE_BODY_SIZE - 4) / UNIQUE_ENTRY_SIZE;

/// Packs unique-index entries into page payloads in order, filling each
/// page to its capacity; an empty index still gets one empty page.
pub fn pack_unique(entries: &Vec<(i64, PageLink)>) -> (r: Vec<UniqueIndexData>)
    ensures
        r@.len() >= 1,
        r@.len() <= entries@.len() + 1,
        forall|i: int|
            0 <= i < r@.len() ==> (#[trigger] r@[i]).entries@.len() <= UNIQUE_PAGE_CAPACITY,
        spec_concat_u(r@) == entries@,
{
    let mut out: Vec<UniqueIndexData> = Vec::new();
    let mut cur: Vec<(i64, PageLink)> = Vec::new();
    let mut i: usize = 0;
    proof {
        assert(entries@.subrange(0, 0) =~= Seq::<(i64, PageLink)>::empty());
        assert(spec_concat_u(out@) + cur@ =~= entries@.subrange(0, 0));
    }
    while i < entries.len()
        invariant
            i <= entries@.len(),
            cur@.len() <= UNIQUE_PAGE_CAPACITY,
            out@.len() <= i,
            cur@.len() > 0 ==> out@.len() + 1 <= i,
            forall|j: int|
                0 <= j < out@.len() ==> (#[trigger] out@[j]).entries@.len()
                    <= UNIQUE_PAGE_CAPACITY,
            spec_concat_u(out@) + cur@ == entries@.subrange(0, i as int),
        decreases entries@.len() - i,
    {
        if cur.len() == UNIQUE_PAGE_CAPACITY {
            let ghost prev_out = out@;
            let ghost prev_cur = cur@;
            let full = UniqueIndexData { entries: cur };
            out.push(full);
            cur = Vec::new();
            proof {
                lemma_concat_u_snoc(prev_out, out@.last());
                assert(out@ =~= prev_out.push(out@.last()));
                assert(out@.last().entries@ == prev_cur);
                assert(spec_concat_u(out@) + cur@ =~= entries@.subrange(0, i as int));
            }
        }
        let ghost pre_cur = cur@;
        proof {
            assert(spec_concat_u(out@) + pre_cur =~= entries@.subrange(0, i as int));
        }
        cur.push(entries[i]);
        proof {
            assert(cur@ == pre_cur.push(entries@[i as int]));
            assert(spec_concat_u(out@) + cur@ =~= (spec_concat_u(out@) + pre_cur).push(
                entries@[i as int],
            ));
            assert(entries@.subrange(0, i + 1) =~= entries@.subrange(0, i as int).push(
                entries@[i as int],
            ));
            assert(spec_concat_u(out@) + cur@ =~= entries@.subrange(0, i + 1));
        }
        i = i + 1;
    }
    let ghost prev_out = out@;
    let ghost prev_cur = cur@;
    out.push(UniqueIndexData { entries: cur });
    proof {
        lemma_concat_u_snoc(prev_out, out@.last());
        assert(out@ =~= prev_out.push(out@.last()));
        assert(out@.last().entries@ == prev_cur);
        assert(entries@.subrange(0, entries@.len() as int) =~= entries@);
        assert(spec_concat_u(out@) =~= entries@);
    }
    out
}

/// Packs page-sized non-unique entries into page payloads in order, filling
/// each page while its wire form fits. An empty run still gets one empty
/// page.
fn pack_nu_pieces(entries: &Vec<(Vec<u8>, Vec<PageLink>)>) -> (r: Result<
    Vec<NonUniqueIndexData>,
    crate::table::WorkTableError,
>)
    requires
        forall|i: int|
            0 <= i < entries@.len() ==> spec_nu_entry_size(#[trigger] spec_nu_model(entries@)[i])
                <= INDEX_PAGE_BODY_SIZE - 4,
    ensures
        match r {
            Ok(out) => {
                &&& out@.len() >= 1
                &&& out@.len() <= entries@.len() + 1
                &&& forall|i: int| 0 <= i < out@.len() ==> spec_ndata_wf(#[trigger] out@[i])
                &&& spec_concat_n(out@) == spec_nu_model(entries@)
            },
            Err(_) => false,
        },
{
    let mut out: Vec<NonUniqueIndexData> = Vec::new();
    let mut cur: Vec<(Vec<u8>, Vec<PageLink>)> = Vec::new();
    let mut cur_size: usize = 0;
    let mut i: usize = 0;
    proof {
        assert(spec_nu_model(entries@).subrange(0, 0) =~= Seq::<(Seq<u8>, Seq<PageLink>)>::empty());
        assert(spec_nu_model(cur@) =~= Seq::<(Seq<u8>, Seq<PageLink>)>::empty());
        assert(spec_concat_n(out@) + spec_nu_model(cur@) =~= spec_nu_model(entries@).subrange(
            0,
            0,
        ));
    }
    while i < entries.len()
        invariant
            i <= entries@.len(),
            forall|x: int|
                0 <= x < entries@.len() ==> spec_nu_entry_size(
                    #[trigger] spec_nu_model(entries@)[x],
                ) <= INDEX_PAGE_BODY_SIZE - 4,
            cur_size == spec_enc_nu_entries(spec_nu_model(cur@)).len(),
            4 + cur_size <= INDEX_PAGE_BODY_SIZE,
            spec_nu_entries_wf(spec_nu_model(cur@)),
            cur@.len() <= cur_size,
            out@.len() <= i,
            cur@.len() > 0 ==> out@.len() + 1 <= i,
            forall|j: int| 0 <= j < out@.len() ==> spec_ndata_wf(#[trigger] out@[j]),
            spec_concat_n(out@) + spec_nu_model(cur@) == spec_nu_model(entries@).subrange(
                0,
                i as int,
            ),
        decreases entries@.len() - i,
    {
        let klen = entries[i].0.len();
        let n = entries[i].1.len();
        proof {
            lemma_links_roundtrip(entries@[i as int].1@, Seq::empty());
        }
        proof {
            assert(spec_nu_entry_size(spec_nu_model(entries@)[i as int]) == 8 + klen
                + LINK_LENGTH * n);
            assert(8 + klen + LINK_LENGTH * n <= INDEX_PAGE_BODY_SIZE - 4);
        }
        let size = 8 + klen + LINK_LENGTH * n;
        if 4 + cur_size + size > INDEX_PAGE_BODY_SIZE {
            proof {
                assert(cur@.len() > 0) by {
                    if cur@.len() == 0 {
                        assert(spec_nu_model(cur@) =~= Seq::<(Seq<u8>, Seq<PageLink>)>::empty());
                        assert(spec_enc_nu_entries(spec_nu_model(cur@)).len() == 0);
                    }
                }
            }
            let ghost prev_out = out@;
            let ghost prev_cur = cur@;
            let full = NonUniqueIndexData { entries: cur };
            out.push(full);
            cur = Vec::new();
            cur_size = 0;
            proof {
                lemma_concat_n_snoc(prev_out, out@.last());
                assert(out@ =~= prev_out.push(out@.last()));
                assert(out@.last().entries@ == prev_cur);
                assert(spec_nu_model(cur@) =~= Seq::<(Seq<u8>, Seq<PageLink>)>::empty());
                assert(spec_enc_nu_entries(spec_nu_model(cur@)).len() == 0);
                assert(spec_concat_n(out@) + spec_nu_model(cur@) =~= spec_nu_model(
                    entries@,
                ).subrange(0, i as int));
            }
        }
        let ghost pre_cur = spec_nu_model(cur@);
        let key = crate::persist::copy_bytes(&entries[i].0);
        let links = crate::persist::copy_links(&entries[i].1);
        cur.push((key, links));
        cur_size = cur_size + size;
        proof {
            lemma_auto_spec_u32_to_from_le_bytes();
            assert(spec_nu_model(cur@) =~= pre_cur.push(spec_nu_model(entries@)[i as int]));
            lemma_enc_nu_snoc(pre_cur, spec_nu_model(entries@)[i as int]);
            assert(spec_enc_nu_entry(spec_nu_model(entries@)[i as int]).len() == size);
            assert(spec_concat_n(out@) + spec_nu_model(cur@) =~= (spec_concat_n(out@)
                + pre_cur).push(spec_nu_model(entries@)[i as int]));
            assert(spec_nu_model(entries@).subrange(0, i + 1) =~= spec_nu_model(
                entries@,
            ).subrange(0, i as int).push(spec_nu_model(entries@)[i as int]));
            assert(spec_concat_n(out@) + spec_nu_model(cur@) =~= spec_nu_model(entries@).subrange(
                0,
                i + 1,
            ));
            assert forall|j: int| 0 <= j < spec_nu_model(cur@).len() implies (
            #[trigger] spec_nu_model(cur@)[j]).0.len() <= u32::MAX && spec_nu_model(
                cur@,
            )[j].1.len() <= u32::MAX by {
                if j < pre_cur.len() {
                    assert(spec_nu_model(cur@)[j] == pre_cur[j]);
                }
            }
        }
        i = i + 1;
    }
    let ghost prev_out = out@;
    let ghost prev_cur = cur@;
    out.push(NonUniqueIndexData { entries: cur });
    proof {
        lemma_concat_n_snoc(prev_out, out@.last());
        assert(out@ =~= prev_out.push(out@.last()));
        assert(out@.last().entries@ == prev_cur);
        assert(spec_nu_model(entries@).subrange(0, entries@.len() as int) =~= spec_nu_model(
            entries@,
        ));
        assert(spec_concat_n(out@) =~= spec_nu_model(entries@));
    }
    Ok(out)
}

/// A non-unique key is small enough that a piece of its bucket, with at
/// least one link, fits a fresh page body.
pub open spec fn spec_nu_key_fits(k: Seq<u8>) -> bool {
    8 + k.len() + LINK_LENGTH <= INDEX_PAGE_BODY_SIZE - 4
}

/// Packs non-unique-index entries into page payloads in key order, filling
/// each page while its wire form fits and splitting a bucket across pages
/// when it alone cannot fit one, as repeated entries under the same key.
/// Fails exactly when a key is too long for any page. An empty index still
/// gets one empty page.
pub fn pack_non_unique(entries: &Vec<(Vec<u8>, Vec<PageLink>)>) -> (r: Result<
    Vec<NonUniqueIndexData>,
    crate::table::WorkTableError,
>)
    requires
        forall|i: int|
            0 <= i < entries@.len() ==> (#[trigger] entries@[i]).1@.len() > 0
                && entries@[i].1@.no_duplicates(),
        forall|i: int, j: int|
            0 <= i < j < entries@.len() ==> crate::index::bytes_lt(
                (#[trigger] entries@[i]).0@,
                (#[trigger] entries@[j]).0@,
            ),
    ensures
        match r {
            Ok(out) => {
                &&& out@.len() >= 1
                &&& out@.len() <= spec_ungroup(spec_nu_model(entries@)).len() + 1
                &&& forall|i: int| 0 <= i < out@.len() ==> spec_ndata_wf(#[trigger] out@[i])
                &&& spec_ungroup(spec_concat_n(out@)) == spec_ungroup(spec_nu_model(entries@))
                &&& forall|p: int|
                    0 <= p < spec_concat_n(out@).len() ==> (#[trigger] spec_concat_n(
                        out@,
                    )[p]).1.len() > 0 && spec_concat_n(out@)[p].1.no_duplicates()
                &&& forall|a: int, b: int|
                    0 <= a < b < spec_concat_n(out@).len() ==> crate::index::bytes_le(
                        (#[trigger] spec_concat_n(out@)[a]).0,
                        (#[trigger] spec_concat_n(out@)[b]).0,
                    )
            },
            Err(e) => {
                &&& e == crate::table::WorkTableError::SerializeError
                &&& exists|i: int|
                    0 <= i < entries@.len() && !spec_nu_key_fits((#[trigger] entries@[i]).0@)
            },
        },
{
    let ghost em = spec_nu_model(entries@);
    // split each bucket into pieces that fit a fresh page
    let mut pieces: Vec<(Vec<u8>, Vec<PageLink>)> = Vec::new();
    let mut i: usize = 0;
    proof {
        assert(em.subrange(0, 0) =~= Seq::<(Seq<u8>, Seq<PageLink>)>::empty());
        assert(spec_ungroup(spec_nu_model(pieces@)) =~= spec_ungroup(em.subrange(0, 0)));
    }
    while i < entries.len()
        invariant
            i <= entries@.len(),
            em == spec_nu_model(entries@),
            forall|x: int|
                0 <= x < entries@.len() ==> (#[trigger] entries@[x]).1@.len() > 0
                    && entries@[x].1@.no_duplicates(),
            forall|x: int, y: int|
                0 <= x < y < entries@.len() ==> crate::index::bytes_lt(
                    (#[trigger] entries@[x]).0@,
                    (#[trigger] entries@[y]).0@,
                ),
            spec_ungroup(spec_nu_model(pieces@)) == spec_ungroup(em.subrange(0, i as int)),
            forall|p: int|
                0 <= p < pieces@.len() ==> {
                    let pm = #[trigger] spec_nu_model(pieces@)[p];
                    &&& pm.1.len() > 0
                    &&& pm.1.no_duplicates()
                    &&& spec_nu_entry_size(pm) <= INDEX_PAGE_BODY_SIZE - 4
                },
            forall|p: int|
                0 <= p < pieces@.len() ==> exists|j: int|
                    0 <= j < i && (#[trigger] spec_nu_model(pieces@)[p]).0 == em[j].0,
            forall|a: int, b: int|
                0 <= a < b < pieces@.len() ==> crate::index::bytes_le(
                    (#[trigger] spec_nu_model(pieces@)[a]).0,
                    (#[trigger] spec_nu_model(pieces@)[b]).0,
                ),
        decreases entries@.len() - i,
    {
        let klen = entries[i].0.len();
        if klen >= INDEX_PAGE_BODY_SIZE || 8 + klen + LINK_LENGTH > INDEX_PAGE_BODY_SIZE - 4 {
            proof {
                assert(!spec_nu_key_fits(entries@[i as int].0@));
            }
            return Err(crate::table::WorkTableError::SerializeError);
        }
        let per_page = (INDEX_PAGE_BODY_SIZE - 4 - 8 - klen) / LINK_LENGTH;
        proof {
            assert(per_page >= 1 && 8 + klen + LINK_LENGTH * per_page <= INDEX_PAGE_BODY_SIZE
                - 4) by (nonlinear_arith)
                requires
                    per_page as int == (4078 - 4 - 8 - klen as int) / 12,
                    8 + klen as int + 12 <= 4078 - 4,
                    LINK_LENGTH == 12,
                    INDEX_PAGE_BODY_SIZE == 4078,
            ;
        }
        let links_len = entries[i].1.len();
        let mut start: usize = 0;
        let ghost epairs = spec_entry_pairs(em[i as int]);
        proof {
            assert(epairs.subrange(0, 0) =~= Seq::<(Seq<u8>, PageLink)>::empty());
            assert(spec_ungroup(spec_nu_model(pieces@)) + epairs.subrange(0, 0)
                =~= spec_ungroup(spec_nu_model(pieces@)));
        }
        while start < links_len
            invariant
                start <= links_len,
                i < entries@.len(),
                links_len == entries@[i as int].1@.len(),
                em == spec_nu_model(entries@),
                epairs == spec_entry_pairs(em[i as int]),
                klen == entries@[i as int].0@.len(),
                per_page >= 1,
                8 + klen + LINK_LENGTH * per_page <= INDEX_PAGE_BODY_SIZE - 4,
                entries@[i as int].1@.no_duplicates(),
                forall|x: int, y: int|
                    0 <= x < y < entries@.len() ==> crate::index::bytes_lt(
                        (#[trigger] entries@[x]).0@,
                        (#[trigger] entries@[y]).0@,
                    ),
                start > 0 ==> pieces@.len() > 0 && spec_nu_model(pieces@).last().0
                    == em[i as int].0,
                spec_ungroup(spec_nu_model(pieces@)) == spec_ungroup(em.subrange(0, i as int))
                    + epairs.subrange(0, start as int),
                forall|p: int|
                    0 <= p < pieces@.len() ==> {
                        let pm = #[trigger] spec_nu_model(pieces@)[p];
                        &&& pm.1.len() > 0
                        &&& pm.1.no_duplicates()
                        &&& spec_nu_entry_size(pm) <= INDEX_PAGE_BODY_SIZE - 4
                    },
                forall|p: int|
                    0 <= p < pieces@.len() ==> exists|j: int|
                        0 <= j < i + 1 && (#[trigger] spec_nu_model(pieces@)[p]).0 == em[j].0,
                forall|a: int, b: int|
                    0 <= a < b < pieces@.len() ==> crate::index::bytes_le(
                        (#[trigger] spec_nu_model(pieces@)[a]).0,
                        (#[trigger] spec_nu_model(pieces@)[b]).0,
                    ),
            decreases links_len - start,
        {
            let end = if links_len - start < per_page {
                links_len
            } else {
                start + per_page
            };
            let chunk = copy_links(
                &vstd::slice::slice_to_vec(
                    vstd::slice::slice_subrange(entries[i].1.as_slice(), start, end),
                ),
            );
            let key = copy_bytes(&entries[i].0);
            let ghost prev_pieces = pieces@;
            let ghost chunk_model = (entries@[i as int].0@, entries@[i as int].1@.subrange(
                start as int,
                end as int,
            ));
            pieces.push((key, chunk));
            proof {
                assert(spec_nu_model(pieces@).last() == chunk_model);
                assert forall|p: int| 0 <= p < prev_pieces.len() implies spec_nu_model(
                    pieces@,
                )[p] == spec_nu_model(prev_pieces)[p] by {
                    assert(pieces@[p] == prev_pieces[p]);
                }
                assert(spec_nu_model(pieces@) =~= spec_nu_model(prev_pieces).push(chunk_model));
                lemma_ungroup_snoc(spec_nu_model(prev_pieces), chunk_model);
                assert(spec_entry_pairs(chunk_model) =~= epairs.subrange(
                    start as int,
                    end as int,
                ));
                assert(spec_ungroup(spec_nu_model(pieces@)) =~= spec_ungroup(
                    em.subrange(0, i as int),
                ) + epairs.subrange(0, end as int));
                // the chunk inherits distinctness from the bucket
                assert forall|x: int, y: int|
                    0 <= x < y < chunk_model.1.len() implies chunk_model.1[x] != chunk_model.1[y]
                    by {
                    assert(entries@[i as int].1@[start + x] == chunk_model.1[x]);
                    assert(entries@[i as int].1@[start + y] == chunk_model.1[y]);
                }
                lemma_auto_spec_u32_to_from_le_bytes();
                lemma_links_roundtrip(chunk_model.1, Seq::empty());
                assert(spec_nu_entry_size(chunk_model) <= INDEX_PAGE_BODY_SIZE - 4)
                    by (nonlinear_arith)
                    requires
                        spec_nu_entry_size(chunk_model) == 8 + klen + LINK_LENGTH * (end - start),
                        end - start <= per_page,
                        8 + klen + LINK_LENGTH * per_page <= INDEX_PAGE_BODY_SIZE - 4,
                        LINK_LENGTH == 12,
                ;
                // order against earlier pieces: earlier keys come from
                // earlier entries, which sort strictly below this one
                assert forall|a: int| 0 <= a < prev_pieces.len() implies crate::index::bytes_le(
                    (#[trigger] spec_nu_model(pieces@)[a]).0,
                    chunk_model.0,
                ) by {
                    assert(spec_nu_model(prev_pieces)[a] == spec_nu_model(pieces@)[a]);
                    let j = choose|j: int|
                        0 <= j < i + 1 && (#[trigger] spec_nu_model(prev_pieces)[a]).0 == em[j].0;
                    if j < i {
                        assert(crate::index::bytes_lt(entries@[j].0@, entries@[i as int].0@));
                        assert(em[j].0 == entries@[j].0@);
                    }
                }
            }
            start = end;
        }
        proof {
            assert(epairs.subrange(0, links_len as int) =~= epairs);
            assert(em.subrange(0, i + 1) =~= em.subrange(0, i as int).push(em[i as int]));
            lemma_ungroup_snoc(em.subrange(0, i as int), em[i as int]);
            assert(spec_ungroup(spec_nu_model(pieces@)) =~= spec_ungroup(em.subrange(0, i + 1)));
        }
        i = i + 1;
    }
    proof {
        assert(em.subrange(0, em.len() as int) =~= em);
        lemma_ungroup_len(spec_nu_model(pieces@));
    }
    let r = pack_nu_pieces(&pieces);
    match r {
        Ok(out) => {
            proof {
                assert(spec_concat_n(out@) == spec_nu_model(pieces@));
            }
            Ok(out)
        },
        Err(_) => {
            proof {
                assert(false);
            }
            Err(crate::table::WorkTableError::SerializeError)
        },
    }
}

/// A non-unique payload fits a page and its length prefixes.
pub open spec fn spec_ndata_wf(d: NonUniqueIndexData) -> bool {
    &&& 4 + spec_enc_nu_entries(spec_nu_model(d.entries@)).len() <= INDEX_PAGE_BODY_SIZE
    &&& d.entries@.len() <= u32::MAX
    &&& spec_nu_entries_wf(spec_nu_model(d.entries@))
}

/// Copies a byte vector.
pub fn copy_bytes(v: &Vec<u8>) -> (r: Vec<u8>)
    ensures
        r@ == v@,
{
    vstd::slice::slice_to_vec(v.as_slice())
}

/// Copies a link vector.
pub fn copy_links(v: &Vec<PageLink>) -> (r: Vec<PageLink>)
    ensures
        r@ == v@,
{
    vstd::slice::slice_to_vec(v.as_slice())
}

/// The headers of a run of unique-index pages.
pub open spec fn spec_uheaders(ps: Seq<GeneralPage<UniqueIndexData>>) -> Seq<GeneralHeader> {
    Seq::new(ps.len(), |i: int| ps[i].header)
}

/// The headers of a run of non-unique-index pages.
pub open spec fn spec_nheaders(ps: Seq<GeneralPage<NonUniqueIndexData>>) -> Seq<GeneralHeader> {
    Seq::new(ps.len(), |i: int| ps[i].header)
}

/// The payloads of a run of unique-index pages.
pub open spec fn spec_uinners(ps: Seq<GeneralPage<UniqueIndexData>>) -> Seq<UniqueIndexData> {
    Seq::new(ps.len(), |i: int| ps[i].inner)
}

/// The payloads of a run of non-unique-index pages.
pub open spec fn spec_ninners(ps: Seq<GeneralPage<NonUniqueIndexData>>) -> Seq<
    NonUniqueIndexData,
> {
    Seq::new(ps.len(), |i: int| ps[i].inner)
}

/// A page chain rooted after page `base`: ids are consecutive from
/// `base + 1`, every page points back to its predecessor and forward to its
/// successor, and the last page's forward link is the zero sentinel.
pub open spec fn spec_chain_ok(hs: Seq<GeneralHeader>, base: u32) -> bool {
    &&& base + hs.len() < u32::MAX
    &&& forall|i: int|
        0 <= i < hs.len() ==> {
            let h = #[trigger] hs[i];
            &&& h.page_id == base + 1 + i
            &&& h.previous_id == base + i
            &&& h.next_id == (if i == hs.len() - 1 {
                0u32
            } else {
                (base + 2 + i) as u32
            })
            &&& h.page_kind == PAGE_KIND_INDEX
        }
}

/// The entries are strictly ascending in key and carry exactly the map's
/// pairs.
pub open spec fn unique_entries_match(e: Seq<(i64, PageLink)>, m: Map<i64, PageLink>) -> bool {
    &&& forall|i: int|
        0 <= i < e.len() ==> m.contains_key((#[trigger] e[i]).0) && m[e[i].0] == e[i].1
    &&& forall|i: int, j: int| 0 <= i < j < e.len() ==> (#[trigger] e[i]).0 < (#[trigger] e[j]).0
    &&& forall|k: i64|
        #[trigger] m.contains_key(k) ==> exists|i: int| 0 <= i < e.len() && (#[trigger] e[i]).0
            == k
}

/// The entries carry exactly the map's buckets: every entry's key is a key
/// of the map, every key of the map appears, the entries' pairs reassemble
/// each bucket exactly, the keys are ascending (a bucket split across pages
/// repeats its key on consecutive entries), and every entry is non-empty
/// and duplicate-free.
pub open spec fn nu_entries_match(e: Seq<(Seq<u8>, Seq<PageLink>)>, m: Map<Seq<u8>, Set<PageLink>>) -> bool {
    &&& forall|i: int|
        0 <= i < e.len() ==> m.contains_key((#[trigger] e[i]).0) && e[i].1.no_duplicates()
            && e[i].1.len() > 0
    &&& forall|i: int, j: int|
        0 <= i < j < e.len() ==> crate::index::bytes_le((#[trigger] e[i]).0, (#[trigger] e[j]).0)
    &&& forall|k: Seq<u8>|
        #[trigger] m.contains_key(k) ==> exists|i: int| 0 <= i < e.len() && (#[trigger] e[i]).0
            == k
    &&& forall|k: Seq<u8>|
        #[trigger] m.contains_key(k) ==> m[k] == spec_pairs_bucket(spec_ungroup(e), k)
}

/// Faithful enumerations of the two indexes exist whose combined length is
/// too large for the chain's page ids to follow `base` within `u32`.
pub open spec fn spec_chain_overflow(
    uqm: Map<i64, PageLink>,
    num: Map<Seq<u8>, Set<PageLink>>,
    base: u32,
) -> bool {
    exists|es: Seq<(i64, PageLink)>, ps: Seq<(Seq<u8>, Seq<PageLink>)>|
        #![trigger unique_entries_match(es, uqm), nu_entries_match(ps, num)]
        unique_entries_match(es, uqm) && nu_entries_match(ps, num) && base + es.len()
            + spec_ungroup(ps).len() + 4 > u32::MAX
}

/// The on-disk snapshot of the table's secondary indexes: one page chain
/// per declared index, in declaration order.
#[derive(Clone, Debug)]
pub struct TestIndexesPersisted {
    pub test_idx: Vec<GeneralPage<UniqueIndexData>>,
    pub exchange_idx: Vec<GeneralPage<NonUniqueIndexData>>,
}

impl TestIndexesPersisted {
    /// Every page fits its fixed-size wire form and both chains exist.
    pub open spec fn wf(&self) -> bool {
        &&& self.test_idx@.len() >= 1
        &&& self.exchange_idx@.len() >= 1
        &&& forall|i: int|
            0 <= i < self.test_idx@.len() ==> spec_upage_wf(#[trigger] self.test_idx@[i])
        &&& forall|i: int|
            0 <= i < self.exchange_idx@.len() ==> spec_npage_wf(#[trigger] self.exchange_idx@[i])
    }

    /// All index pages in file order, each in its fixed-size wire form.
    pub open spec fn spec_bytes(&self) -> Seq<u8> {
        spec_bytes_u(self.test_idx@) + spec_bytes_n(self.exchange_idx@)
    }
}

/// The wire form of a run of unique-index pages.
pub open spec fn spec_bytes_u(ps: Seq<GeneralPage<UniqueIndexData>>) -> Seq<u8>
    decreases ps.len(),
{
    if ps.len() == 0 {
        Seq::empty()
    } else {
        spec_enc_upage(ps[0]) + spec_bytes_u(ps.skip(1))
    }
}

/// The wire form of a run of non-unique-index pages.
pub open spec fn spec_bytes_n(ps: Seq<GeneralPage<NonUniqueIndexData>>) -> Seq<u8>
    decreases ps.len(),
{
    if ps.len() == 0 {
        Seq::empty()
    } else {
        spec_enc_npage(ps[0]) + spec_bytes_n(ps.skip(1))
    }
}

/// Appending one page extends the run's wire form at its end.
pub proof fn lemma_bytes_u_snoc(ps: Seq<GeneralPage<UniqueIndexData>>, q: GeneralPage<
    UniqueIndexData,
>)
    ensures
        spec_bytes_u(ps.push(q)) == spec_bytes_u(ps) + spec_enc_upage(q),
    decreases ps.len(),
{
    if ps.len() == 0 {
        assert(ps.push(q)[0] == q);
        assert(ps.push(q).skip(1) =~= Seq::<GeneralPage<UniqueIndexData>>::empty());
        assert(spec_bytes_u(ps.push(q)) == spec_enc_upage(ps.push(q)[0]) + spec_bytes_u(
            ps.push(q).skip(1),
        ));
        assert(spec_bytes_u(ps.push(q).skip(1)).len() == 0);
        assert(spec_bytes_u(ps.push(q)) =~= spec_enc_upage(q));
        assert(spec_bytes_u(ps) + spec_enc_upage(q) =~= spec_enc_upage(q));
    } else {
        assert(ps.push(q)[0] == ps[0]);
        assert(ps.push(q).skip(1) =~= ps.skip(1).push(q));
        lemma_bytes_u_snoc(ps.skip(1), q);
        assert(spec_bytes_u(ps.push(q)) =~= spec_bytes_u(ps) + spec_enc_upage(q));
    }
}

/// Appending one page extends the run's wire form at its end.
pub proof fn lemma_bytes_n_snoc(ps: Seq<GeneralPage<NonUniqueIndexData>>, q: GeneralPage<
    NonUniqueIndexData,
>)
    ensures
        spec_bytes_n(ps.push(q)) == spec_bytes_n(ps) + spec_enc_npage(q),
    decreases ps.len(),
{
    if ps.len() == 0 {
        assert(ps.push(q)[0] == q);
        assert(ps.push(q).skip(1) =~= Seq::<GeneralPage<NonUniqueIndexData>>::empty());
        assert(spec_bytes_n(ps.push(q)) == spec_enc_npage(ps.push(q)[0]) + spec_bytes_n(
            ps.push(q).skip(1),
        ));
        assert(spec_bytes_n(ps.push(q).skip(1)).len() == 0);
        assert(spec_bytes_n(ps.push(q)) =~= spec_enc_npage(q));
        assert(spec_bytes_n(ps) + spec_enc_npage(q) =~= spec_enc_npage(q));
    } else {
        assert(ps.push(q)[0] == ps[0]);
        assert(ps.push(q).skip(1) =~= ps.skip(1).push(q));
        lemma_bytes_n_snoc(ps.skip(1), q);
        assert(spec_bytes_n(ps.push(q)) =~= spec_bytes_n(ps) + spec_enc_npage(q));
    }
}

/// Each page of a run occupies its own fixed-size block of the wire form.
pub proof fn lemma_bytes_u_block(ps: Seq<GeneralPage<UniqueIndexData>>, j: int)
    requires
        0 <= j < ps.len(),
        forall|i: int| 0 <= i < ps.len() ==> spec_upage_wf(#[trigger] ps[i]),
    ensures
        spec_bytes_u(ps).len() == PAGE_SIZE * ps.len(),
        spec_bytes_u(ps).subrange(PAGE_SIZE * j, PAGE_SIZE * (j + 1)) == spec_enc_upage(ps[j]),
    decreases ps.len(),
{
    lemma_bytes_u_len(ps);
    lemma_upage_roundtrip(ps[0]);
    if j == 0 {
        assert(spec_bytes_u(ps).subrange(0, PAGE_SIZE as int) =~= spec_enc_upage(ps[0]));
    } else {
        lemma_bytes_u_block(ps.skip(1), j - 1);
        assert(ps.skip(1)[j - 1] == ps[j]);
        assert(spec_bytes_u(ps).subrange(PAGE_SIZE * j, PAGE_SIZE * (j + 1)) =~= spec_bytes_u(
            ps.skip(1),
        ).subrange(PAGE_SIZE * (j - 1), PAGE_SIZE * j));
    }
}

/// The wire form of a run of unique-index pages is one block per page.
pub proof fn lemma_bytes_u_len(ps: Seq<GeneralPage<UniqueIndexData>>)
    requires
        forall|i: int| 0 <= i < ps.len() ==> spec_upage_wf(#[trigger] ps[i]),
    ensures
        spec_bytes_u(ps).len() == PAGE_SIZE * ps.len(),
    decreases ps.len(),
{
    if ps.len() > 0 {
        lemma_upage_roundtrip(ps[0]);
        assert forall|i: int| 0 <= i < ps.skip(1).len() implies spec_upage_wf(
            #[trigger] ps.skip(1)[i],
        ) by {
            assert(ps.skip(1)[i] == ps[i + 1]);
        }
        lemma_bytes_u_len(ps.skip(1));
    }
}

/// The wire form of a run of non-unique-index pages is one block per page.
pub proof fn lemma_bytes_n_len(ps: Seq<GeneralPage<NonUniqueIndexData>>)
    requires
        forall|i: int| 0 <= i < ps.len() ==> spec_npage_wf(#[trigger] ps[i]),
    ensures
        spec_bytes_n(ps).len() == PAGE_SIZE * ps.len(),
    decreases ps.len(),
{
    if ps.len() > 0 {
        lemma_npage_roundtrip(ps[0]);
        assert forall|i: int| 0 <= i < ps.skip(1).len() implies spec_npage_wf(
            #[trigger] ps.skip(1)[i],
        ) by {
            assert(ps.skip(1)[i] == ps[i + 1]);
        }
        lemma_bytes_n_len(ps.skip(1));
    }
}

/// Each page of a run occupies its own fixed-size block of the wire form.
pub proof fn lemma_bytes_n_block(ps: Seq<GeneralPage<NonUniqueIndexData>>, j: int)
    requires
        0 <= j < ps.len(),
        forall|i: int| 0 <= i < ps.len() ==> spec_npage_wf(#[trigger] ps[i]),
    ensures
        spec_bytes_n(ps).len() == PAGE_SIZE * ps.len(),
        spec_bytes_n(ps).subrange(PAGE_SIZE * j, PAGE_SIZE * (j + 1)) == spec_enc_npage(ps[j]),
    decreases ps.len(),
{
    lemma_bytes_n_len(ps);
    lemma_npage_roundtrip(ps[0]);
    if j == 0 {
        assert(spec_bytes_n(ps).subrange(0, PAGE_SIZE as int) =~= spec_enc_npage(ps[0]));
    } else {
        assert forall|i: int| 0 <= i < ps.skip(1).len() implies spec_npage_wf(
            #[trigger] ps.skip(1)[i],
        ) by {
            assert(ps.skip(1)[i] == ps[i + 1]);
        }
        lemma_bytes_n_block(ps.skip(1), j - 1);
        assert(ps.skip(1)[j - 1] == ps[j]);
        assert(spec_bytes_n(ps).subrange(PAGE_SIZE * j, PAGE_SIZE * (j + 1)) =~= spec_bytes_n(
            ps.skip(1),
        ).subrange(PAGE_SIZE * (j - 1), PAGE_SIZE * j));
    }
}

impl crate::table::TestIndexes {
    /// Snapshots the live indexes into page chains. The pages' ids follow
    /// `header`'s page id; `header` is re-pointed at the first of them; the
    /// chain runs through both indexes in declaration order. Fails, leaving
    /// `header` alone, exactly when a key is too long for any page or the
    /// page ids would overflow.
    pub fn get_persisted_index(&self, header: &mut GeneralHeader) -> (r: Result<
        TestIndexesPersisted,
        crate::table::WorkTableError,
    >)
        requires
            forall|k: Seq<u8>|
                #[trigger] crate::index::non_unique_index_view(self.exchange_idx).contains_key(k)
                    ==> !crate::index::non_unique_index_view(self.exchange_idx)[k].is_empty(),
        ensures
            match r {
                Ok(p) => {
                    &&& p.wf()
                    &&& spec_chain_ok(
                        spec_uheaders(p.test_idx@) + spec_nheaders(p.exchange_idx@),
                        old(header).page_id,
                    )
                    &&& unique_entries_match(
                        spec_concat_u(spec_uinners(p.test_idx@)),
                        crate::index::unique_index_view(self.test_idx),
                    )
                    &&& nu_entries_match(
                        spec_concat_n(spec_ninners(p.exchange_idx@)),
                        crate::index::non_unique_index_view(self.exchange_idx),
                    )
                    &&& *final(header) == (GeneralHeader {
                        next_id: (old(header).page_id + 1) as u32,
                        ..*old(header)
                    })
                },
                Err(e) => {
                    &&& e == crate::table::WorkTableError::SerializeError
                    &&& *final(header) == *old(header)
                    &&& {
                        ||| exists|k: Seq<u8>|
                            #[trigger] crate::index::non_unique_index_view(
                                self.exchange_idx,
                            ).contains_key(k) && !spec_nu_key_fits(k)
                        ||| spec_chain_overflow(
                            crate::index::unique_index_view(self.test_idx),
                            crate::index::non_unique_index_view(self.exchange_idx),
                            old(header).page_id,
                        )
                    }
                },
            },
    {
        let ghost mu = crate::index::unique_index_view(self.test_idx);
        let ghost m = crate::index::non_unique_index_view(self.exchange_idx);
        let uq_entries = crate::index::unique_index_entries(&self.test_idx);
        let nu_entries = crate::index::non_unique_index_entries(&self.exchange_idx);
        proof {
            // the unique snapshot is a faithful enumeration of its index
            assert(unique_entries_match(uq_entries@, mu)) by {
                assert forall|k: i64| #[trigger] mu.contains_key(k) implies exists|j: int|
                    0 <= j < uq_entries@.len() && (#[trigger] uq_entries@[j]).0 == k by {
                    let j = choose|j: int|
                        0 <= j < uq_entries@.len() && (#[trigger] uq_entries@[j]).0 == k;
                }
            }
            // the non-unique snapshot has non-empty, duplicate-free buckets
            assert forall|j: int| 0 <= j < nu_entries@.len() implies (
            #[trigger] nu_entries@[j]).1@.len() > 0 && nu_entries@[j].1@.no_duplicates() by {
                assert(nu_entries@[j].1@.to_set() == m[nu_entries@[j].0@]);
                if nu_entries@[j].1@.len() == 0 {
                    assert(nu_entries@[j].1@.to_set() =~= Set::<PageLink>::empty());
                    assert(m[nu_entries@[j].0@].is_empty());
                }
            }
            assert forall|x: int, y: int| 0 <= x < y < nu_entries@.len() implies
                crate::index::bytes_lt(
                (#[trigger] nu_entries@[x]).0@,
                (#[trigger] nu_entries@[y]).0@,
            ) by {
                assert(crate::index::bytes_lt(nu_entries@[x].0@, nu_entries@[y].0@));
            }
        }
        let uq_chunks = pack_unique(&uq_entries);
        let nu_chunks = match pack_non_unique(&nu_entries) {
            Ok(c) => c,
            Err(e) => {
                proof {
                    let j = choose|j: int|
                        0 <= j < nu_entries@.len() && !spec_nu_key_fits(
                            (#[trigger] nu_entries@[j]).0@,
                        );
                    assert(m.contains_key(nu_entries@[j].0@));
                }
                return Err(e);
            },
        };
        let ghost pieces = spec_concat_n(nu_chunks@);
        proof {
            // the packed pieces are a faithful enumeration of the index
            lemma_nu_pieces_match(nu_entries@, pieces, m);
        }
        let t = uq_chunks.len();
        let e = nu_chunks.len();
        if t >= u32::MAX as usize || e >= u32::MAX as usize || t as u64 + e as u64 >= u32::MAX
            as u64 - header.page_id as u64 {
            proof {
                lemma_ungroup_len_eq(spec_nu_model(nu_entries@), pieces);
                assert(spec_chain_overflow(mu, m, header.page_id)) by {
                    assert(unique_entries_match(uq_entries@, mu) && nu_entries_match(pieces, m)
                        && header.page_id + uq_entries@.len() + spec_ungroup(pieces).len() + 4
                        > u32::MAX);
                }
            }
            return Err(crate::table::WorkTableError::SerializeError);
        }
        let base = header.page_id;
        let ghost uq_chunks_snap = uq_chunks@;
        let ghost nu_chunks_snap = nu_chunks@;
        let mut uq_chunks = uq_chunks;
        let mut nu_chunks = nu_chunks;
        let mut test_pages: Vec<GeneralPage<UniqueIndexData>> = Vec::new();
        let mut i: usize = 0;
        while i < t
            invariant
                i <= t,
                t == uq_chunks_snap.len(),
                e == nu_chunks_snap.len(),
                e >= 1,
                base + t + e < u32::MAX,
                uq_chunks@ == uq_chunks_snap.skip(i as int),
                test_pages@.len() == i,
                forall|j: int|
                    0 <= j < i ==> (#[trigger] test_pages@[j]).inner == uq_chunks_snap[j],
                forall|j: int|
                    0 <= j < i ==> {
                        let h = (#[trigger] test_pages@[j]).header;
                        &&& h.page_id == base + 1 + j
                        &&& h.previous_id == base + j
                        &&& h.next_id == base + 2 + j
                        &&& h.page_kind == PAGE_KIND_INDEX
                    },
                forall|j: int|
                    0 <= j < uq_chunks_snap.len() ==> (#[trigger] uq_chunks_snap[j]).entries@.len()
                        <= UNIQUE_PAGE_CAPACITY,
            decreases t - i,
        {
            let chunk = uq_chunks.remove(0);
            let count = chunk.entries.len();
            let h = GeneralHeader {
                page_id: base + 1 + i as u32,
                previous_id: base + i as u32,
                next_id: base + 2 + i as u32,
                space_left: (INDEX_PAGE_BODY_SIZE - 4 - UNIQUE_ENTRY_SIZE * count) as u32,
                page_kind: PAGE_KIND_INDEX,
            };
            test_pages.push(GeneralPage { header: h, inner: chunk });
            proof {
                assert(uq_chunks@ =~= uq_chunks_snap.skip(i + 1));
            }
            i = i + 1;
        }
        let mut exchange_pages: Vec<GeneralPage<NonUniqueIndexData>> = Vec::new();
        let mut i2: usize = 0;
        while i2 < e
            invariant
                i2 <= e,
                t == uq_chunks_snap.len(),
                e == nu_chunks_snap.len(),
                base + t + e < u32::MAX,
                nu_chunks@ == nu_chunks_snap.skip(i2 as int),
                exchange_pages@.len() == i2,
                forall|j: int|
                    0 <= j < i2 ==> (#[trigger] exchange_pages@[j]).inner == nu_chunks_snap[j],
                forall|j: int|
                    0 <= j < i2 ==> {
                        let h = (#[trigger] exchange_pages@[j]).header;
                        &&& h.page_id == base + t + 1 + j
                        &&& h.previous_id == base + t + j
                        &&& h.next_id == (if j == e - 1 {
                            0u32
                        } else {
                            (base + t + 2 + j) as u32
                        })
                        &&& h.page_kind == PAGE_KIND_INDEX
                    },
                forall|j: int|
                    0 <= j < nu_chunks_snap.len() ==> spec_ndata_wf(#[trigger] nu_chunks_snap[j]),
            decreases e - i2,
        {
            let chunk = nu_chunks.remove(0);
            let next = if i2 == e - 1 {
                0u32
            } else {
                base + t as u32 + 2 + i2 as u32
            };
            let h = GeneralHeader {
                page_id: base + t as u32 + 1 + i2 as u32,
                previous_id: base + t as u32 + i2 as u32,
                next_id: next,
                space_left: 0,
                page_kind: PAGE_KIND_INDEX,
            };
            exchange_pages.push(GeneralPage { header: h, inner: chunk });
            proof {
                assert(nu_chunks@ =~= nu_chunks_snap.skip(i2 + 1));
            }
            i2 = i2 + 1;
        }
        header.next_id = base + 1;
        let r = TestIndexesPersisted { test_idx: test_pages, exchange_idx: exchange_pages };
        proof {
            assert(spec_uinners(r.test_idx@) =~= uq_chunks_snap);
            assert(spec_ninners(r.exchange_idx@) =~= nu_chunks_snap);
            let hs = spec_uheaders(r.test_idx@) + spec_nheaders(r.exchange_idx@);
            assert forall|j: int| 0 <= j < hs.len() implies {
                let h = #[trigger] hs[j];
                &&& h.page_id == base + 1 + j
                &&& h.previous_id == base + j
                &&& h.next_id == (if j == hs.len() - 1 {
                    0u32
                } else {
                    (base + 2 + j) as u32
                })
                &&& h.page_kind == PAGE_KIND_INDEX
            } by {
                if j < t {
                    assert(hs[j] == r.test_idx@[j].header);
                } else {
                    assert(hs[j] == r.exchange_idx@[j - t].header);
                }
            }
            assert forall|j: int| 0 <= j < r.test_idx@.len() implies spec_upage_wf(
                #[trigger] r.test_idx@[j],
            ) by {
                assert(r.test_idx@[j].inner == uq_chunks_snap[j]);
            }
            assert forall|j: int| 0 <= j < r.exchange_idx@.len() implies spec_npage_wf(
                #[trigger] r.exchange_idx@[j],
            ) by {
                assert(r.exchange_idx@[j].inner == nu_chunks_snap[j]);
            }
            assert(spec_concat_u(spec_uinners(r.test_idx@)) == uq_entries@);
            assert(spec_concat_n(spec_ninners(r.exchange_idx@)) == pieces);
        }
        Ok(r)
    }
}

/// The pieces a faithful non-unique snapshot was packed into are themselves
/// a faithful enumeration of the index: their pairs are the snapshot's
/// pairs regrouped page by page.
pub proof fn lemma_nu_pieces_match(
    entries: Seq<(Vec<u8>, Vec<PageLink>)>,
    pieces: Seq<(Seq<u8>, Seq<PageLink>)>,
    m: Map<Seq<u8>, Set<PageLink>>,
)
    requires
        // the snapshot is faithful to the live index
        forall|j: int|
            0 <= j < entries.len() ==> m.contains_key((#[trigger] entries[j]).0@)
                && m[entries[j].0@] == entries[j].1@.to_set(),
        forall|x: int, y: int|
            0 <= x < y < entries.len() ==> crate::index::bytes_lt(
                (#[trigger] entries[x]).0@,
                (#[trigger] entries[y]).0@,
            ),
        forall|k: Seq<u8>|
            #[trigger] m.contains_key(k) ==> exists|j: int|
                0 <= j < entries.len() && (#[trigger] entries[j].0)@ == k,
        forall|j: int|
            0 <= j < entries.len() ==> (#[trigger] entries[j]).1@.len() > 0
                && entries[j].1@.no_duplicates(),
        // the pieces regroup exactly the snapshot's pairs
        spec_ungroup(pieces) == spec_ungroup(spec_nu_model(entries)),
        forall|p: int|
            0 <= p < pieces.len() ==> (#[trigger] pieces[p]).1.len() > 0
                && pieces[p].1.no_duplicates(),
        forall|a: int, b: int|
            0 <= a < b < pieces.len() ==> crate::index::bytes_le(
                (#[trigger] pieces[a]).0,
                (#[trigger] pieces[b]).0,
            ),
    ensures
        nu_entries_match(pieces, m),
{
    let em = spec_nu_model(entries);
    assert forall|p: int| 0 <= p < pieces.len() implies m.contains_key((#[trigger] pieces[p]).0)
        by {
        lemma_ungroup_covers(pieces, p, 0);
        let q = choose|q: int|
            0 <= q < spec_ungroup(pieces).len() && #[trigger] spec_ungroup(pieces)[q] == (
                pieces[p].0,
                pieces[p].1[0],
            );
        lemma_ungroup_member(em, q);
        let j = choose|j: int|
            0 <= j < em.len() && (#[trigger] em[j]).0 == spec_ungroup(em)[q].0 && em[j].1.contains(
                spec_ungroup(em)[q].1,
            );
        assert(m.contains_key(entries[j].0@));
    }
    assert forall|k: Seq<u8>| #[trigger] m.contains_key(k) implies exists|i: int|
        0 <= i < pieces.len() && (#[trigger] pieces[i]).0 == k by {
        let j = choose|j: int| 0 <= j < entries.len() && (#[trigger] entries[j].0)@ == k;
        lemma_ungroup_covers(em, j, 0);
        let q = choose|q: int|
            0 <= q < spec_ungroup(em).len() && #[trigger] spec_ungroup(em)[q] == (
                em[j].0,
                em[j].1[0],
            );
        lemma_ungroup_member(pieces, q);
        let i = choose|i: int|
            0 <= i < pieces.len() && (#[trigger] pieces[i]).0 == spec_ungroup(pieces)[q].0
                && pieces[i].1.contains(spec_ungroup(pieces)[q].1);
        assert(pieces[i].0 == k);
    }
    assert forall|k: Seq<u8>| #[trigger] m.contains_key(k) implies m[k] == spec_pairs_bucket(
        spec_ungroup(pieces),
        k,
    ) by {
        let jk = choose|j: int| 0 <= j < entries.len() && (#[trigger] entries[j].0)@ == k;
        assert(m[k] == entries[jk].1@.to_set());
        assert forall|l: PageLink| #[trigger] m[k].contains(l) implies spec_pairs_bucket(
            spec_ungroup(pieces),
            k,
        ).contains(l) by {
            assert(entries[jk].1@.contains(l));
            let li = choose|li: int|
                0 <= li < entries[jk].1@.len() && #[trigger] entries[jk].1@[li] == l;
            lemma_ungroup_covers(em, jk, li);
        }
        assert forall|l: PageLink|
            #[trigger] spec_pairs_bucket(spec_ungroup(pieces), k).contains(l) implies m[
            k].contains(l) by {
            let q = choose|q: int|
                0 <= q < spec_ungroup(pieces).len() && #[trigger] spec_ungroup(pieces)[q] == (
                    k,
                    l,
                );
            lemma_ungroup_member(em, q);
            let j = choose|j: int|
                0 <= j < em.len() && (#[trigger] em[j]).0 == spec_ungroup(em)[q].0
                    && em[j].1.contains(spec_ungroup(em)[q].1);
            // the snapshot's keys are strictly ascending, so one entry owns k
            assert(entries[j].0@ == k && entries[j].1@.contains(l));
            assert(m[entries[j].0@].contains(l));
        }
        assert(m[k] =~= spec_pairs_bucket(spec_ungroup(pieces), k));
    }
}

/// The pairs of two enumerations that regroup the same contents have one
/// length.
pub proof fn lemma_ungroup_len_eq(a: Seq<(Seq<u8>, Seq<PageLink>)>, b: Seq<(Seq<u8>, Seq<PageLink>)>)
    requires
        spec_ungroup(b) == spec_ungroup(a),
    ensures
        spec_ungroup(b).len() == spec_ungroup(a).len(),
{
}

/// The byte name of the unique `test` index.
pub open spec fn spec_test_idx_name() -> Seq<u8> {
    seq![116u8, 101u8, 115u8, 116u8, 95u8, 105u8, 100u8, 120u8]
}

/// The byte name of the non-unique `exchange` index.
pub open spec fn spec_exchange_idx_name() -> Seq<u8> {
    seq![101u8, 120u8, 99u8, 104u8, 97u8, 110u8, 103u8, 101u8, 95u8, 105u8, 100u8, 120u8]
}

/// The name of the unique `test` index, as UTF-8 bytes.
pub fn test_idx_name() -> (r: Vec<u8>)
    ensures
        r@ == spec_test_idx_name(),
{
    let mut r: Vec<u8> = Vec::new();
    r.push(116);
    r.push(101);
    r.push(115);
    r.push(116);
    r.push(95);
    r.push(105);
    r.push(100);
    r.push(120);
    proof {
        assert(r@ =~= spec_test_idx_name());
    }
    r
}

/// The name of the non-unique `exchange` index, as UTF-8 bytes.
pub fn exchange_idx_name() -> (r: Vec<u8>)
    ensures
        r@ == spec_exchange_idx_name(),
{
    let mut r: Vec<u8> = Vec::new();
    r.push(101);
    r.push(120);
    r.push(99);
    r.push(104);
    r.push(97);
    r.push(110);
    r.push(103);
    r.push(101);
    r.push(95);
    r.push(105);
    r.push(100);
    r.push(120);
    proof {
        assert(r@ =~= spec_exchange_idx_name());
    }
    r
}

impl crate::table::TestIndexes {
    /// The names of the declared indexes, in declaration order.
    pub fn get_index_names(&self) -> (r: Vec<Vec<u8>>)
        ensures
            r@.len() == 2,
            r@[0]@ == spec_test_idx_name(),
            r@[1]@ == spec_exchange_idx_name(),
    {
        let mut r: Vec<Vec<u8>> = Vec::new();
        r.push(test_idx_name());
        r.push(exchange_idx_name());
        r
    }

    /// Rebuilds live indexes from a persisted snapshot. The unique entries
    /// are reinstalled one by one; the non-unique entries' pairs are
    /// reassembled by set union, so a bucket split across pages comes back
    /// whole. The stated contents hold whenever the snapshot is of the form
    /// `get_persisted_index` emits: unique keys strictly ascending, every
    /// non-unique entry non-empty.
    pub fn from_persisted(persisted: &TestIndexesPersisted) -> (r: Self)
        ensures
            ({
                let e = spec_concat_u(spec_uinners(persisted.test_idx@));
                let m = crate::index::unique_index_view(r.test_idx);
                (forall|i: int, j: int|
                    0 <= i < j < e.len() ==> (#[trigger] e[i]).0 < (#[trigger] e[j]).0) ==> {
                    &&& forall|k: i64|
                        #[trigger] m.contains_key(k) <==> exists|i: int|
                            0 <= i < e.len() && (#[trigger] e[i]).0 == k
                    &&& forall|i: int|
                        0 <= i < e.len() ==> m.contains_key((#[trigger] e[i]).0) && m[e[i].0]
                            == e[i].1
                }
            }),
            ({
                let e = spec_concat_n(spec_ninners(persisted.exchange_idx@));
                let m = crate::index::non_unique_index_view(r.exchange_idx);
                (forall|i: int| 0 <= i < e.len() ==> (#[trigger] e[i]).1.len() > 0) ==> {
                    &&& forall|k: Seq<u8>|
                        #[trigger] m.contains_key(k) <==> exists|i: int|
                            0 <= i < e.len() && (#[trigger] e[i]).0 == k
                    &&& forall|k: Seq<u8>|
                        #[trigger] m.contains_key(k) ==> m[k] == spec_pairs_bucket(
                            spec_ungroup(e),
                            k,
                        )
                }
            }),
    {
        let ghost eu = spec_concat_u(spec_uinners(persisted.test_idx@));
        let ghost en = spec_concat_n(spec_ninners(persisted.exchange_idx@));
        let ghost u_sorted = forall|i: int, j: int|
            0 <= i < j < eu.len() ==> (#[trigger] eu[i]).0 < (#[trigger] eu[j]).0;
        // flatten the unique pages
        let mut flat_u: Vec<(i64, PageLink)> = Vec::new();
        let mut pi: usize = 0;
        proof {
            assert(spec_uinners(persisted.test_idx@).subrange(0, 0)
                =~= Seq::<UniqueIndexData>::empty());
        }
        while pi < persisted.test_idx.len()
            invariant
                pi <= persisted.test_idx@.len(),
                flat_u@ == spec_concat_u(spec_uinners(persisted.test_idx@).subrange(0, pi as int)),
            decreases persisted.test_idx@.len() - pi,
        {
            let page = &persisted.test_idx[pi];
            let ghost before = flat_u@;
            let mut qi: usize = 0;
            while qi < page.inner.entries.len()
                invariant
                    qi <= page.inner.entries@.len(),
                    page == &persisted.test_idx@[pi as int],
                    flat_u@ == before + page.inner.entries@.subrange(0, qi as int),
                decreases page.inner.entries@.len() - qi,
            {
                flat_u.push(page.inner.entries[qi]);
                proof {
                    assert(flat_u@ =~= before + page.inner.entries@.subrange(0, qi + 1));
                }
                qi = qi + 1;
            }
            proof {
                assert(page.inner.entries@.subrange(0, page.inner.entries@.len() as int)
                    =~= page.inner.entries@);
                lemma_concat_u_snoc(
                    spec_uinners(persisted.test_idx@).subrange(0, pi as int),
                    persisted.test_idx@[pi as int].inner,
                );
                assert(spec_uinners(persisted.test_idx@).subrange(0, pi + 1) =~= spec_uinners(
                    persisted.test_idx@,
                ).subrange(0, pi as int).push(persisted.test_idx@[pi as int].inner));
            }
            pi = pi + 1;
        }
        proof {
            assert(spec_uinners(persisted.test_idx@).subrange(
                0,
                persisted.test_idx@.len() as int,
            ) =~= spec_uinners(persisted.test_idx@));
            assert(flat_u@ == eu);
        }
        // flatten the non-unique pages
        let mut flat_n: Vec<(Vec<u8>, Vec<PageLink>)> = Vec::new();
        let mut pj: usize = 0;
        proof {
            assert(spec_ninners(persisted.exchange_idx@).subrange(0, 0)
                =~= Seq::<NonUniqueIndexData>::empty());
            assert(spec_nu_model(flat_n@) =~= spec_concat_n(
                spec_ninners(persisted.exchange_idx@).subrange(0, 0),
            ));
        }
        while pj < persisted.exchange_idx.len()
            invariant
                pj <= persisted.exchange_idx@.len(),
                spec_nu_model(flat_n@) == spec_concat_n(
                    spec_ninners(persisted.exchange_idx@).subrange(0, pj as int),
                ),
            decreases persisted.exchange_idx@.len() - pj,
        {
            let page = &persisted.exchange_idx[pj];
            let ghost before = spec_nu_model(flat_n@);
            let mut qj: usize = 0;
            while qj < page.inner.entries.len()
                invariant
                    qj <= page.inner.entries@.len(),
                    page == &persisted.exchange_idx@[pj as int],
                    spec_nu_model(flat_n@) == before + spec_nu_model(
                        page.inner.entries@,
                    ).subrange(0, qj as int),
                decreases page.inner.entries@.len() - qj,
            {
                let key = copy_bytes(&page.inner.entries[qj].0);
                let links = copy_links(&page.inner.entries[qj].1);
                let ghost prev_flat = flat_n@;
                flat_n.push((key, links));
                proof {
                    assert(flat_n@.last().0@ == page.inner.entries@[qj as int].0@);
                    assert(flat_n@.last().1@ == page.inner.entries@[qj as int].1@);
                    assert(spec_nu_model(flat_n@).len() == prev_flat.len() + 1);
                    assert forall|i2: int| 0 <= i2 < prev_flat.len() implies spec_nu_model(
                        flat_n@,
                    )[i2] == spec_nu_model(prev_flat)[i2] by {
                        assert(flat_n@[i2] == prev_flat[i2]);
                    }
                    assert(spec_nu_model(flat_n@).last() == (flat_n@.last().0@,
                    flat_n@.last().1@));
                    assert(spec_nu_model(page.inner.entries@)[qj as int] == (
                    page.inner.entries@[qj as int].0@,
                    page.inner.entries@[qj as int].1@,
                    ));
                    assert(spec_nu_model(flat_n@).last() == spec_nu_model(
                        page.inner.entries@,
                    )[qj as int]);
                    assert(spec_nu_model(prev_flat) == before + spec_nu_model(
                        page.inner.entries@,
                    ).subrange(0, qj as int));
                    assert(spec_nu_model(prev_flat).len() == prev_flat.len());
                    assert(flat_n@.len() == prev_flat.len() + 1);
                    assert(spec_nu_model(flat_n@).len() == flat_n@.len());
                    let rhs = before + spec_nu_model(page.inner.entries@).subrange(0, qj + 1);
                    assert(spec_nu_model(flat_n@).len() == rhs.len());
                    assert forall|i2: int| 0 <= i2 < spec_nu_model(flat_n@).len() implies
                        spec_nu_model(flat_n@)[i2] == rhs[i2] by {
                        if i2 < prev_flat.len() {
                            assert(spec_nu_model(flat_n@)[i2] == spec_nu_model(prev_flat)[i2]);
                            assert(spec_nu_model(prev_flat)[i2] == (before + spec_nu_model(
                                page.inner.entries@,
                            ).subrange(0, qj as int))[i2]);
                            if i2 >= before.len() {
                                assert(rhs[i2] == spec_nu_model(page.inner.entries@).subrange(
                                    0,
                                    qj + 1,
                                )[i2 - before.len()]);
                            }
                        } else {
                            assert(spec_nu_model(flat_n@)[i2] == spec_nu_model(flat_n@).last());
                            assert(rhs[i2] == spec_nu_model(page.inner.entries@)[qj as int]);
                        }
                    }
                    assert(spec_nu_model(flat_n@) =~= rhs);
                }
                qj = qj + 1;
            }
            proof {
                assert(spec_nu_model(page.inner.entries@).subrange(
                    0,
                    page.inner.entries@.len() as int,
                ) =~= spec_nu_model(page.inner.entries@));
                lemma_concat_n_snoc(
                    spec_ninners(persisted.exchange_idx@).subrange(0, pj as int),
                    persisted.exchange_idx@[pj as int].inner,
                );
                assert(spec_ninners(persisted.exchange_idx@).subrange(0, pj + 1) =~= spec_ninners(
                    persisted.exchange_idx@,
                ).subrange(0, pj as int).push(persisted.exchange_idx@[pj as int].inner));
            }
            pj = pj + 1;
        }
        proof {
            assert(spec_ninners(persisted.exchange_idx@).subrange(
                0,
                persisted.exchange_idx@.len() as int,
            ) =~= spec_ninners(persisted.exchange_idx@));
            assert(spec_nu_model(flat_n@) == en);
        }
        // rebuild the unique index
        let mut test_idx = crate::index::unique_index_new();
        let mut g: usize = 0;
        while g < flat_u.len()
            invariant
                g <= flat_u@.len(),
                flat_u@ == eu,
                u_sorted == (forall|i: int, j: int|
                    0 <= i < j < eu.len() ==> (#[trigger] eu[i]).0 < (#[trigger] eu[j]).0),
                u_sorted ==> forall|k: i64|
                    #[trigger] crate::index::unique_index_view(test_idx).contains_key(k) <==> exists|
                        j: int,
                    | 0 <= j < g && (#[trigger] eu[j]).0 == k,
                u_sorted ==> forall|j: int|
                    0 <= j < g ==> crate::index::unique_index_view(test_idx).contains_key(
                        (#[trigger] eu[j]).0,
                    ) && crate::index::unique_index_view(test_idx)[eu[j].0] == eu[j].1,
            decreases flat_u@.len() - g,
        {
            let e = flat_u[g];
            proof {
                if u_sorted && crate::index::unique_index_view(test_idx).contains_key(e.0) {
                    let j = choose|j: int| 0 <= j < g && (#[trigger] eu[j]).0 == e.0;
                    assert(eu[j].0 < eu[g as int].0);
                    assert(false);
                }
            }
            let ok = crate::index::unique_index_insert(&mut test_idx, e.0, e.1);
            proof {
                if u_sorted {
                    assert(ok);
                    assert forall|k: i64|
                        #[trigger] crate::index::unique_index_view(test_idx).contains_key(k)
                            implies exists|j: int| 0 <= j < g + 1 && (#[trigger] eu[j]).0 == k by {
                        if k != e.0 {
                            let j = choose|j: int| 0 <= j < g && (#[trigger] eu[j]).0 == k;
                            assert(0 <= j < g + 1 && eu[j].0 == k);
                        } else {
                            assert(eu[g as int].0 == k);
                        }
                    }
                }
            }
            g = g + 1;
        }
        // rebuild the non-unique index: union every entry's links into its
        // key's bucket, so entries repeating a key reassemble one bucket
        let mut exchange_idx = crate::index::non_unique_index_new();
        let mut g2: usize = 0;
        proof {
            assert(en.subrange(0, 0) =~= Seq::<(Seq<u8>, Seq<PageLink>)>::empty());
        }
        while g2 < flat_n.len()
            invariant
                g2 <= flat_n@.len(),
                spec_nu_model(flat_n@) == en,
                forall|k: Seq<u8>|
                    #[trigger] crate::index::non_unique_index_view(exchange_idx).contains_key(k)
                        <==> exists|j: int|
                        0 <= j < g2 && (#[trigger] en[j]).0 == k && en[j].1.len() > 0,
                forall|k: Seq<u8>|
                    #[trigger] crate::index::non_unique_index_view(exchange_idx).contains_key(k)
                        ==> crate::index::non_unique_index_view(exchange_idx)[k]
                        == spec_pairs_bucket(spec_ungroup(en.subrange(0, g2 as int)), k),
            decreases flat_n@.len() - g2,
        {
            let ghost pre_view = crate::index::non_unique_index_view(exchange_idx);
            let ghost piece = en[g2 as int];
            proof {
                assert((flat_n@[g2 as int].0@, flat_n@[g2 as int].1@) == piece);
            }
            let links_len = flat_n[g2].1.len();
            let mut l: usize = 0;
            while l < links_len
                invariant
                    l <= links_len,
                    links_len == flat_n@[g2 as int].1@.len(),
                    g2 < flat_n@.len(),
                    spec_nu_model(flat_n@) == en,
                    piece == en[g2 as int],
                    flat_n@[g2 as int].0@ == piece.0,
                    flat_n@[g2 as int].1@ == piece.1,
                    l == 0 ==> crate::index::non_unique_index_view(exchange_idx) == pre_view,
                    l > 0 ==> crate::index::non_unique_index_view(exchange_idx)
                        == pre_view.insert(
                        piece.0,
                        crate::index::bucket_of(pre_view, piece.0).union(
                            piece.1.subrange(0, l as int).to_set(),
                        ),
                    ),
                decreases links_len - l,
            {
                let link = flat_n[g2].1[l];
                crate::index::non_unique_index_add(&mut exchange_idx, &flat_n[g2].0, link);
                proof {
                    lemma_links_to_set_push(piece.1, l as int);
                    if l == 0 {
                        assert(piece.1.subrange(0, 1).to_set() =~= Set::<PageLink>::empty().insert(
                            piece.1[0],
                        ));
                        assert(crate::index::bucket_of(pre_view, piece.0).insert(piece.1[0])
                            =~= crate::index::bucket_of(pre_view, piece.0).union(
                            piece.1.subrange(0, 1).to_set(),
                        ));
                    } else {
                        let acc = crate::index::bucket_of(pre_view, piece.0).union(
                            piece.1.subrange(0, l as int).to_set(),
                        );
                        assert(crate::index::bucket_of(
                            pre_view.insert(piece.0, acc),
                            piece.0,
                        ) == acc);
                        assert(acc.insert(piece.1[l as int]) =~= crate::index::bucket_of(
                            pre_view,
                            piece.0,
                        ).union(piece.1.subrange(0, l + 1).to_set()));
                    }
                }
                l = l + 1;
            }
            proof {
                assert(piece.1.subrange(0, piece.1.len() as int) =~= piece.1);
                assert(en.subrange(0, g2 + 1) =~= en.subrange(0, g2 as int).push(piece));
                lemma_ungroup_snoc(en.subrange(0, g2 as int), piece);
                let cur_view = crate::index::non_unique_index_view(exchange_idx);
                assert forall|k: Seq<u8>| #[trigger] cur_view.contains_key(k) implies exists|
                    j: int,
                | 0 <= j < g2 + 1 && (#[trigger] en[j]).0 == k && en[j].1.len() > 0 by {
                    if piece.1.len() == 0 || k != piece.0 {
                        assert(pre_view.contains_key(k));
                        let j = choose|j: int|
                            0 <= j < g2 && (#[trigger] en[j]).0 == k && en[j].1.len() > 0;
                        assert(0 <= j < g2 + 1 && en[j].0 == k && en[j].1.len() > 0);
                    } else {
                        assert(en[g2 as int].0 == k && en[g2 as int].1.len() > 0);
                    }
                }
                assert forall|k: Seq<u8>|
                    exists|j: int| 0 <= j < g2 + 1 && (#[trigger] en[j]).0 == k && en[j].1.len()
                        > 0 implies #[trigger] cur_view.contains_key(k) by {
                    let j = choose|j: int|
                        0 <= j < g2 + 1 && (#[trigger] en[j]).0 == k && en[j].1.len() > 0;
                    if j < g2 {
                        assert(pre_view.contains_key(k));
                    } else {
                        assert(k == piece.0 && piece.1.len() > 0);
                    }
                }
                assert forall|k: Seq<u8>| #[trigger] cur_view.contains_key(k) implies cur_view[k]
                    == spec_pairs_bucket(spec_ungroup(en.subrange(0, g2 + 1)), k) by {
                    lemma_pairs_bucket_append(
                        spec_ungroup(en.subrange(0, g2 as int)),
                        spec_entry_pairs(piece),
                        k,
                    );
                    lemma_pairs_bucket_entry(piece, k);
                    if k == piece.0 && piece.1.len() > 0 {
                        assert(crate::index::bucket_of(pre_view, k) =~= spec_pairs_bucket(
                            spec_ungroup(en.subrange(0, g2 as int)),
                            k,
                        )) by {
                            if pre_view.contains_key(k) {
                            } else {
                                assert forall|l2: PageLink|
                                    !(#[trigger] spec_pairs_bucket(
                                        spec_ungroup(en.subrange(0, g2 as int)),
                                        k,
                                    ).contains(l2)) by {
                                    if spec_pairs_bucket(
                                        spec_ungroup(en.subrange(0, g2 as int)),
                                        k,
                                    ).contains(l2) {
                                        let q = choose|q: int|
                                            0 <= q < spec_ungroup(
                                                en.subrange(0, g2 as int),
                                            ).len() && #[trigger] spec_ungroup(
                                                en.subrange(0, g2 as int),
                                            )[q] == (k, l2);
                                        lemma_ungroup_member(en.subrange(0, g2 as int), q);
                                        let j = choose|j: int|
                                            0 <= j < en.subrange(0, g2 as int).len() && (
                                            #[trigger] en.subrange(0, g2 as int)[j]).0 == k
                                                && en.subrange(0, g2 as int)[j].1.contains(l2);
                                        assert(en[j].0 == k && en[j].1.len() > 0);
                                        assert(pre_view.contains_key(k));
                                    }
                                }
                            }
                        }
                        assert(cur_view[k] =~= spec_pairs_bucket(
                            spec_ungroup(en.subrange(0, g2 + 1)),
                            k,
                        ));
                    } else {
                        assert(cur_view[k] == crate::index::bucket_of(pre_view, k) || cur_view[k]
                            == pre_view[k]) by {
                            if piece.1.len() > 0 && k != piece.0 {
                                assert(pre_view.contains_key(k) && cur_view[k] == pre_view[k]);
                            } else {
                                assert(cur_view == pre_view);
                                assert(pre_view.contains_key(k));
                            }
                        }
                        assert(spec_pairs_bucket(spec_entry_pairs(piece), k).is_empty() || (k
                            == piece.0 && piece.1.len() == 0)) by {
                            if k != piece.0 {
                            } else {
                            }
                        }
                        assert(cur_view[k] =~= spec_pairs_bucket(
                            spec_ungroup(en.subrange(0, g2 + 1)),
                            k,
                        ));
                    }
                }
            }
            g2 = g2 + 1;
        }
        proof {
            assert(en.subrange(0, en.len() as int) =~= en);
        }
        crate::table::TestIndexes { test_idx, exchange_idx }
    }

}

/// Byte-string order never relates a string to itself.
pub proof fn lemma_bytes_lt_irrefl(a: Seq<u8>)
    ensures
        !crate::index::bytes_lt(a, a),
    decreases a.len(),
{
    if a.len() > 0 {
        lemma_bytes_lt_irrefl(a.skip(1));
    }
}

/// The sequence's first `l + 1` items are its first `l` items and then its
/// item `l`, as sets.
pub proof fn lemma_links_to_set_push(s: Seq<PageLink>, l: int)
    requires
        0 <= l < s.len(),
    ensures
        s.subrange(0, l + 1).to_set() == s.subrange(0, l).to_set().insert(s[l]),
{
    assert(s.subrange(0, l + 1) =~= s.subrange(0, l).push(s[l]));
    assert forall|a: PageLink| #[trigger] s.subrange(0, l + 1).to_set().contains(a) implies
        s.subrange(0, l).to_set().insert(s[l]).contains(a) by {
        assert(s.subrange(0, l + 1).contains(a));
        let i = choose|i: int|
            0 <= i < s.subrange(0, l + 1).len() && #[trigger] s.subrange(0, l + 1)[i] == a;
        if i < l {
            assert(s.subrange(0, l)[i] == a);
            assert(s.subrange(0, l).contains(a));
        }
    }
    assert forall|a: PageLink| #[trigger] s.subrange(0, l).to_set().insert(s[l]).contains(a)
        implies s.subrange(0, l + 1).to_set().contains(a) by {
        if a == s[l] {
            assert(s.subrange(0, l + 1)[l] == a);
            assert(s.subrange(0, l + 1).contains(a));
        } else {
            assert(s.subrange(0, l).contains(a));
            let i = choose|i: int|
                0 <= i < s.subrange(0, l).len() && #[trigger] s.subrange(0, l)[i] == a;
            assert(s.subrange(0, l + 1)[i] == a);
            assert(s.subrange(0, l + 1).contains(a));
        }
    }
    assert(s.subrange(0, l + 1).to_set() =~= s.subrange(0, l).to_set().insert(s[l]));
}

impl TestIndexesPersisted {
    /// Writes every page of both chains to the file bytes, in chain order.
    pub fn persist(&self, file: &mut Vec<u8>)
        requires
            self.wf(),
        ensures
            final(file)@ == old(file)@ + self.spec_bytes(),
    {
        let ghost base = old(file)@;
        let mut i: usize = 0;
        proof {
            assert(self.test_idx@.subrange(0, 0) =~= Seq::<GeneralPage<UniqueIndexData>>::empty());
            assert(file@ =~= base + spec_bytes_u(self.test_idx@.subrange(0, 0)));
        }
        while i < self.test_idx.len()
            invariant
                i <= self.test_idx@.len(),
                self.wf(),
                file@ == base + spec_bytes_u(self.test_idx@.subrange(0, i as int)),
            decreases self.test_idx@.len() - i,
        {
            let mut block = encode_upage(&self.test_idx[i]);
            file.append(&mut block);
            proof {
                lemma_bytes_u_snoc(self.test_idx@.subrange(0, i as int), self.test_idx@[i as int]);
                assert(self.test_idx@.subrange(0, i + 1) =~= self.test_idx@.subrange(
                    0,
                    i as int,
                ).push(self.test_idx@[i as int]));
                assert(file@ =~= base + spec_bytes_u(self.test_idx@.subrange(0, i + 1)));
            }
            i = i + 1;
        }
        proof {
            assert(self.test_idx@.subrange(0, self.test_idx@.len() as int) =~= self.test_idx@);
        }
        let ghost base2 = file@;
        let mut j: usize = 0;
        proof {
            assert(self.exchange_idx@.subrange(0, 0) =~= Seq::<
                GeneralPage<NonUniqueIndexData>,
            >::empty());
            assert(file@ =~= base2 + spec_bytes_n(self.exchange_idx@.subrange(0, 0)));
        }
        while j < self.exchange_idx.len()
            invariant
                j <= self.exchange_idx@.len(),
                self.wf(),
                base2 == base + spec_bytes_u(self.test_idx@),
                file@ == base2 + spec_bytes_n(self.exchange_idx@.subrange(0, j as int)),
            decreases self.exchange_idx@.len() - j,
        {
            let mut block = encode_npage(&self.exchange_idx[j]);
            file.append(&mut block);
            proof {
                lemma_bytes_n_snoc(
                    self.exchange_idx@.subrange(0, j as int),
                    self.exchange_idx@[j as int],
                );
                assert(self.exchange_idx@.subrange(0, j + 1) =~= self.exchange_idx@.subrange(
                    0,
                    j as int,
                ).push(self.exchange_idx@[j as int]));
                assert(file@ =~= base2 + spec_bytes_n(self.exchange_idx@.subrange(0, j + 1)));
            }
            j = j + 1;
        }
        proof {
            assert(self.exchange_idx@.subrange(0, self.exchange_idx@.len() as int)
                =~= self.exchange_idx@);
            assert(file@ =~= base + self.spec_bytes());
        }
    }

    /// The inclusive page-id range of each index chain, by index name:
    /// one interval per index.
    pub fn get_intervals(&self) -> (r: Vec<(Vec<u8>, Vec<Interval>)>)
        requires
            self.test_idx@.len() >= 1,
            self.exchange_idx@.len() >= 1,
        ensures
            r@.len() == 2,
            r@[0].0@ == spec_test_idx_name(),
            r@[0].1@ == seq![
                Interval(
                    self.test_idx@[0].header.page_id,
                    self.test_idx@[self.test_idx@.len() - 1].header.page_id,
                ),
            ],
            r@[1].0@ == spec_exchange_idx_name(),
            r@[1].1@ == seq![
                Interval(
                    self.exchange_idx@[0].header.page_id,
                    self.exchange_idx@[self.exchange_idx@.len() - 1].header.page_id,
                ),
            ],
    {
        let mut r: Vec<(Vec<u8>, Vec<Interval>)> = Vec::new();
        let mut iv_u: Vec<Interval> = Vec::new();
        iv_u.push(
            Interval(
                self.test_idx[0].header.page_id,
                self.test_idx[self.test_idx.len() - 1].header.page_id,
            ),
        );
        r.push((test_idx_name(), iv_u));
        let mut iv_n: Vec<Interval> = Vec::new();
        iv_n.push(
            Interval(
                self.exchange_idx[0].header.page_id,
                self.exchange_idx[self.exchange_idx.len() - 1].header.page_id,
            ),
        );
        r.push((exchange_idx_name(), iv_n));
        proof {
            assert(r@[0].1@ =~= seq![
                Interval(
                    self.test_idx@[0].header.page_id,
                    self.test_idx@[self.test_idx@.len() - 1].header.page_id,
                ),
            ]);
            assert(r@[1].1@ =~= seq![
                Interval(
                    self.exchange_idx@[0].header.page_id,
                    self.exchange_idx@[self.exchange_idx@.len() - 1].header.page_id,
                ),
            ]);
        }
        r
    }

    /// The header of the page with the greatest page id across all chains:
    /// the persister chains a following index's first page to it.
    pub fn get_last_header(&self) -> (r: Option<GeneralHeader>)
        ensures
            self.test_idx@.len() == 0 && self.exchange_idx@.len() == 0 ==> r is None,
            self.test_idx@.len() > 0 && self.exchange_idx@.len() == 0 ==> r == Some(
                self.test_idx@[self.test_idx@.len() - 1].header,
            ),
            self.test_idx@.len() == 0 && self.exchange_idx@.len() > 0 ==> r == Some(
                self.exchange_idx@[self.exchange_idx@.len() - 1].header,
            ),
            self.test_idx@.len() > 0 && self.exchange_idx@.len() > 0 ==> r == Some(
                if self.test_idx@[self.test_idx@.len() - 1].header.page_id
                    < self.exchange_idx@[self.exchange_idx@.len() - 1].header.page_id {
                    self.exchange_idx@[self.exchange_idx@.len() - 1].header
                } else {
                    self.test_idx@[self.test_idx@.len() - 1].header
                },
            ),
    {
        if self.test_idx.len() == 0 {
            if self.exchange_idx.len() == 0 {
                None
            } else {
                Some(self.exchange_idx[self.exchange_idx.len() - 1].header)
            }
        } else {
            let hu = self.test_idx[self.test_idx.len() - 1].header;
            if self.exchange_idx.len() == 0 {
                Some(hu)
            } else {
                let hn = self.exchange_idx[self.exchange_idx.len() - 1].header;
                if hu.page_id < hn.page_id {
                    Some(hn)
                } else {
                    Some(hu)
                }
            }
        }
    }

    /// Reads a persisted index back from file bytes, given the interval
    /// table: every page of each index's single interval, in id order.
    /// Fails exactly when an index name or its interval is missing, a page
    /// lies beyond the file, or a page's bytes are malformed.
    pub fn parse_from_file(file: &[u8], intervals: &Vec<(Vec<u8>, Vec<Interval>)>) -> (r: Result<
        TestIndexesPersisted,
        crate::table::WorkTableError,
    >)
        ensures
            spec_file_parses(file@, intervals@) ==> r is Ok,
            r matches Ok(p) ==> {
                &&& spec_lookup_interval(intervals@, spec_test_idx_name()) is Some
                &&& spec_lookup_interval(intervals@, spec_exchange_idx_name()) is Some
                &&& ({
                    let iu = spec_lookup_interval(intervals@, spec_test_idx_name())->0;
                    let ix = spec_lookup_interval(intervals@, spec_exchange_idx_name())->0;
                    &&& iu.0 <= iu.1
                    &&& ix.0 <= ix.1
                    &&& p.test_idx@.len() == iu.1 - iu.0 + 1
                    &&& p.exchange_idx@.len() == ix.1 - ix.0 + 1
                    &&& PAGE_SIZE * (iu.1 as int) <= file@.len()
                    &&& PAGE_SIZE * (ix.1 as int) <= file@.len()
                    &&& forall|j: int|
                        0 <= j < p.test_idx@.len() ==> spec_upage_decodes(
                            file@.subrange(
                                PAGE_SIZE * (iu.0 + j - 1),
                                PAGE_SIZE * (iu.0 + j),
                            ),
                            #[trigger] p.test_idx@[j],
                        )
                    &&& forall|j: int|
                        0 <= j < p.exchange_idx@.len() ==> spec_npage_decodes(
                            file@.subrange(
                                PAGE_SIZE * (ix.0 + j - 1),
                                PAGE_SIZE * (ix.0 + j),
                            ),
                            #[trigger] p.exchange_idx@[j],
                        )
                })
            },
    {
        broadcast use vstd::slice::axiom_spec_len;

        let flen = file.len();
        let iu = match lookup_interval(intervals, &test_idx_name()) {
            Some(iv) => iv,
            None => {
                return Err(crate::table::WorkTableError::NotFound);
            },
        };
        let ix = match lookup_interval(intervals, &exchange_idx_name()) {
            Some(iv) => iv,
            None => {
                return Err(crate::table::WorkTableError::NotFound);
            },
        };
        if iu.0 > iu.1 || iu.0 == 0 || ix.0 > ix.1 || ix.0 == 0 || iu.1 == u32::MAX || ix.1
            == u32::MAX {
            return Err(crate::table::WorkTableError::NotFound);
        }
        if iu.1 as u64 > (file.len() as u64) / (PAGE_SIZE as u64) || ix.1 as u64 > (file.len()
            as u64) / (PAGE_SIZE as u64) {
            proof {
                if iu.1 as u64 > (flen as u64) / (PAGE_SIZE as u64) {
                    assert(!(PAGE_SIZE * (iu.1 as int) <= file@.len())) by (nonlinear_arith)
                        requires
                            iu.1 as u64 > (file@.len() as u64) / (PAGE_SIZE as u64),
                            file@.len() <= u64::MAX,
                            PAGE_SIZE == 4096,
                    ;
                } else {
                    assert(!(PAGE_SIZE * (ix.1 as int) <= file@.len())) by (nonlinear_arith)
                        requires
                            ix.1 as u64 > (file@.len() as u64) / (PAGE_SIZE as u64),
                            file@.len() <= u64::MAX,
                            PAGE_SIZE == 4096,
                    ;
                }
            }
            return Err(crate::table::WorkTableError::NotFound);
        }
        proof {
            assert(PAGE_SIZE * (iu.1 as int) <= file@.len()) by (nonlinear_arith)
                requires
                    iu.1 as u64 <= (file@.len() as u64) / (PAGE_SIZE as u64),
                    file@.len() <= u64::MAX,
            ;
            assert(PAGE_SIZE * (ix.1 as int) <= file@.len()) by (nonlinear_arith)
                requires
                    ix.1 as u64 <= (file@.len() as u64) / (PAGE_SIZE as u64),
                    file@.len() <= u64::MAX,
            ;
        }
        let mut test_idx: Vec<GeneralPage<UniqueIndexData>> = Vec::new();
        let mut id = iu.0;
        proof {
            assert(PAGE_SIZE * (iu.0 as int - 1) >= 0 && PAGE_SIZE * (iu.0 as int - 1)
                <= PAGE_SIZE * (iu.1 as int)) by (nonlinear_arith)
                requires
                    1 <= iu.0 <= iu.1,
            ;
        }
        let mut pos: usize = PAGE_SIZE * (iu.0 as usize - 1);
        while id <= iu.1
            invariant
                flen == file@.len(),
                spec_lookup_interval(intervals@, spec_test_idx_name()) == Some(iu),
                1 <= iu.0,
                iu.0 <= id <= iu.1 + 1,
                iu.1 < u32::MAX,
                PAGE_SIZE * (iu.1 as int) <= file@.len(),
                pos == PAGE_SIZE * (id as int - 1),
                test_idx@.len() == id - iu.0,
                forall|j: int|
                    0 <= j < test_idx@.len() ==> spec_upage_decodes(
                        file@.subrange(PAGE_SIZE * (iu.0 + j - 1), PAGE_SIZE * (iu.0 + j)),
                        #[trigger] test_idx@[j],
                    ),
            decreases iu.1 + 1 - id,
        {
            proof {
                assert(PAGE_SIZE * (id as int - 1) + PAGE_SIZE == PAGE_SIZE * (id as int)
                    && PAGE_SIZE * (id as int) <= PAGE_SIZE * (iu.1 as int)) by (nonlinear_arith)
                    requires
                        1 <= id <= iu.1,
                ;
            }
            proof {
                assert(pos + PAGE_SIZE <= file@.len()) by (nonlinear_arith)
                    requires
                        pos == PAGE_SIZE * (id as int - 1),
                        1 <= id <= iu.1,
                        PAGE_SIZE * (iu.1 as int) <= file@.len(),
                ;
                vstd::slice::axiom_spec_len(file);
                assert(file@.len() == flen);
            }
            let block = vstd::slice::slice_subrange(file, pos, pos + PAGE_SIZE);
            let page = match decode_upage(block) {
                Ok(p) => p,
                Err(e) => {
                    proof {
                        let j = id - iu.0;
                        assert(file@.subrange(pos as int, pos + PAGE_SIZE) =~= file@.subrange(
                            PAGE_SIZE * (iu.0 + j - 1),
                            PAGE_SIZE * (iu.0 + j),
                        ));
                        assert(!spec_ublock_decodes(
                            file@.subrange(PAGE_SIZE * (iu.0 + j - 1), PAGE_SIZE * (iu.0 + j)),
                        ));
                        assert(!spec_file_parses(file@, intervals@));
                    }
                    return Err(e);
                },
            };
            test_idx.push(page);
            proof {
                assert(file@.subrange(pos as int, pos + PAGE_SIZE) =~= file@.subrange(
                    PAGE_SIZE * (iu.0 + (id - iu.0) - 1),
                    PAGE_SIZE * (iu.0 + (id - iu.0)),
                ));
            }
            pos = pos + PAGE_SIZE;
            id = id + 1;
        }
        let mut exchange_idx: Vec<GeneralPage<NonUniqueIndexData>> = Vec::new();
        let mut id2 = ix.0;
        proof {
            assert(PAGE_SIZE * (ix.0 as int - 1) >= 0 && PAGE_SIZE * (ix.0 as int - 1)
                <= PAGE_SIZE * (ix.1 as int)) by (nonlinear_arith)
                requires
                    1 <= ix.0 <= ix.1,
            ;
        }
        let mut pos2: usize = PAGE_SIZE * (ix.0 as usize - 1);
        while id2 <= ix.1
            invariant
                flen == file@.len(),
                spec_lookup_interval(intervals@, spec_exchange_idx_name()) == Some(ix),
                1 <= ix.0,
                ix.0 <= id2 <= ix.1 + 1,
                ix.1 < u32::MAX,
                PAGE_SIZE * (ix.1 as int) <= file@.len(),
                pos2 == PAGE_SIZE * (id2 as int - 1),
                exchange_idx@.len() == id2 - ix.0,
                forall|j: int|
                    0 <= j < exchange_idx@.len() ==> spec_npage_decodes(
                        file@.subrange(PAGE_SIZE * (ix.0 + j - 1), PAGE_SIZE * (ix.0 + j)),
                        #[trigger] exchange_idx@[j],
                    ),
            decreases ix.1 + 1 - id2,
        {
            proof {
                assert(PAGE_SIZE * (id2 as int - 1) + PAGE_SIZE == PAGE_SIZE * (id2 as int)
                    && PAGE_SIZE * (id2 as int) <= PAGE_SIZE * (ix.1 as int)) by (nonlinear_arith)
                    requires
                        1 <= id2 <= ix.1,
                ;
            }
            proof {
                assert(pos2 + PAGE_SIZE <= file@.len()) by (nonlinear_arith)
                    requires
                        pos2 == PAGE_SIZE * (id2 as int - 1),
                        1 <= id2 <= ix.1,
                        PAGE_SIZE * (ix.1 as int) <= file@.len(),
                ;
                vstd::slice::axiom_spec_len(file);
                assert(file@.len() == flen);
            }
            let block = vstd::slice::slice_subrange(file, pos2, pos2 + PAGE_SIZE);
            let page = match decode_npage(block) {
                Ok(p) => p,
                Err(e) => {
                    proof {
                        let j = id2 - ix.0;
                        assert(file@.subrange(pos2 as int, pos2 + PAGE_SIZE) =~= file@.subrange(
                            PAGE_SIZE * (ix.0 + j - 1),
                            PAGE_SIZE * (ix.0 + j),
                        ));
                        assert(!spec_nblock_decodes(
                            file@.subrange(PAGE_SIZE * (ix.0 + j - 1), PAGE_SIZE * (ix.0 + j)),
                        ));
                        assert(!spec_file_parses(file@, intervals@));
                    }
                    return Err(e);
                },
            };
            exchange_idx.push(page);
            proof {
                assert(file@.subrange(pos2 as int, pos2 + PAGE_SIZE) =~= file@.subrange(
                    PAGE_SIZE * (ix.0 + (id2 - ix.0) - 1),
                    PAGE_SIZE * (ix.0 + (id2 - ix.0)),
                ));
            }
            pos2 = pos2 + PAGE_SIZE;
            id2 = id2 + 1;
        }
        Ok(TestIndexesPersisted { test_idx, exchange_idx })
    }
}

/// The block's bytes carry exactly this unique-index page.
pub open spec fn spec_upage_decodes(b: Seq<u8>, p: GeneralPage<UniqueIndexData>) -> bool {
    &&& b.len() == PAGE_SIZE
    &&& p.header == spec_dec_header(b.subrange(0, GENERAL_HEADER_SIZE as int))
    &&& p.inner.entries@.len() == spec_u32_from_le_bytes(b.subrange(18, 22))
    &&& spec_dec_unique_entries(b.skip(22), p.inner.entries@.len() as nat) == Some(
        p.inner.entries@,
    )
}

/// The block's bytes carry exactly this non-unique-index page.
pub open spec fn spec_npage_decodes(b: Seq<u8>, p: GeneralPage<NonUniqueIndexData>) -> bool {
    &&& b.len() == PAGE_SIZE
    &&& p.header == spec_dec_header(b.subrange(0, GENERAL_HEADER_SIZE as int))
    &&& p.inner.entries@.len() == spec_u32_from_le_bytes(b.subrange(18, 22))
    &&& spec_dec_nu_entries(b.skip(22), p.inner.entries@.len() as nat) == Some(
        spec_nu_model(p.inner.entries@),
    )
}

/// The block is one page whose entry run decodes as unique-index entries.
pub open spec fn spec_ublock_decodes(b: Seq<u8>) -> bool {
    &&& b.len() == PAGE_SIZE
    &&& spec_dec_unique_entries(
        b.skip(22),
        spec_u32_from_le_bytes(b.subrange(18, 22)) as nat,
    ) is Some
}

/// The block is one page whose entry run decodes as non-unique-index
/// entries.
pub open spec fn spec_nblock_decodes(b: Seq<u8>) -> bool {
    &&& b.len() == PAGE_SIZE
    &&& spec_dec_nu_entries(
        b.skip(22),
        spec_u32_from_le_bytes(b.subrange(18, 22)) as nat,
    ) is Some
}

/// The interval table names both indexes with sound page ranges that lie
/// within the file, and every page block in both ranges decodes: exactly
/// the inputs on which a parse is owed success.
pub open spec fn spec_file_parses(file: Seq<u8>, ivs: Seq<(Vec<u8>, Vec<Interval>)>) -> bool {
    &&& spec_lookup_interval(ivs, spec_test_idx_name()) is Some
    &&& spec_lookup_interval(ivs, spec_exchange_idx_name()) is Some
    &&& ({
        let iu = spec_lookup_interval(ivs, spec_test_idx_name())->0;
        let ix = spec_lookup_interval(ivs, spec_exchange_idx_name())->0;
        &&& 1 <= iu.0 <= iu.1 < u32::MAX
        &&& 1 <= ix.0 <= ix.1 < u32::MAX
        &&& PAGE_SIZE * (iu.1 as int) <= file.len()
        &&& PAGE_SIZE * (ix.1 as int) <= file.len()
        &&& forall|j: int|
            0 <= j <= iu.1 - iu.0 ==> spec_ublock_decodes(
                #[trigger] file.subrange(PAGE_SIZE * (iu.0 + j - 1), PAGE_SIZE * (iu.0 + j)),
            )
        &&& forall|j: int|
            0 <= j <= ix.1 - ix.0 ==> spec_nblock_decodes(
                #[trigger] file.subrange(PAGE_SIZE * (ix.0 + j - 1), PAGE_SIZE * (ix.0 + j)),
            )
    })
}

/// The first interval recorded for an index name, if any.
pub open spec fn spec_lookup_interval(ivs: Seq<(Vec<u8>, Vec<Interval>)>, name: Seq<u8>) -> Option<
    Interval,
>
    decreases ivs.len(),
{
    if ivs.len() == 0 {
        None
    } else if ivs[0].0@ == name {
        if ivs[0].1@.len() >= 1 {
            Some(ivs[0].1@[0])
        } else {
            None
        }
    } else {
        spec_lookup_interval(ivs.skip(1), name)
    }
}

/// Finds the first interval recorded for an index name, if any.
pub fn lookup_interval(ivs: &Vec<(Vec<u8>, Vec<Interval>)>, name: &Vec<u8>) -> (r: Option<
    Interval,
>)
    ensures
        r == spec_lookup_interval(ivs@, name@),
{
    let mut i: usize = 0;
    proof {
        assert(ivs@.skip(0) =~= ivs@);
    }
    while i < ivs.len()
        invariant
            i <= ivs@.len(),
            spec_lookup_interval(ivs@, name@) == spec_lookup_interval(
                ivs@.skip(i as int),
                name@,
            ),
        decreases ivs@.len() - i,
    {
        proof {
            assert(ivs@.skip(i as int)[0] == ivs@[i as int]);
            assert(ivs@.skip(i as int).skip(1) =~= ivs@.skip(i + 1));
        }
        if crate::row::bytes_eq(&ivs[i].0, name) {
            if ivs[i].1.len() >= 1 {
                return Some(ivs[i].1[0]);
            } else {
                return None;
            }
        }
        i = i + 1;
    }
    None
}

/// Reads a unique-index page from one fixed-size block; fails exactly when
/// the block's entries do not decode.
pub fn decode_upage(b: &[u8]) -> (r: Result<
    GeneralPage<UniqueIndexData>,
    crate::table::WorkTableError,
>)
    requires
        b@.len() == PAGE_SIZE,
    ensures
        match r {
            Ok(p) => spec_upage_decodes(b@, p),
            Err(e) => {
                &&& e == crate::table::WorkTableError::PagesError(
                    crate::pages::PagesExecutionError::DeserializeError,
                )
                &&& spec_dec_unique_entries(
                    b@.skip(22),
                    spec_u32_from_le_bytes(b@.subrange(18, 22)) as nat,
                ) is None
            },
        },
{
    let header = GeneralHeader::decode(vstd::slice::slice_subrange(b, 0, GENERAL_HEADER_SIZE));
    let count = u32_from_le_bytes(vstd::slice::slice_subrange(b, 18, 22));
    let ghost n = count as nat;
    let mut entries: Vec<(i64, PageLink)> = Vec::new();
    let mut off: usize = 22;
    let mut i: u32 = 0;
    while i < count
        invariant
            i <= count,
            off == 22 + UNIQUE_ENTRY_SIZE * i,
            22 <= off <= PAGE_SIZE,
            b@.len() == PAGE_SIZE,
            entries@.len() == i,
            n == count as nat,
            count == spec_u32_from_le_bytes(b@.subrange(18, 22)),
            spec_dec_unique_entries(b@.skip(22), n) == (match spec_dec_unique_entries(
                b@.skip(off as int),
                (n - i) as nat,
            ) {
                Some(rest) => Some(entries@ + rest),
                None => None,
            }),
        decreases count - i,
    {
        if PAGE_SIZE - off < UNIQUE_ENTRY_SIZE {
            proof {
                assert(b@.skip(off as int).len() < UNIQUE_ENTRY_SIZE);
                assert(spec_dec_unique_entries(b@.skip(off as int), (n - i) as nat) is None);
            }
            return Err(
                crate::table::WorkTableError::PagesError(
                    crate::pages::PagesExecutionError::DeserializeError,
                ),
            );
        }
        let key = u64_from_le_bytes(vstd::slice::slice_subrange(b, off, off + 8)) as i64;
        let link = PageLink::from_bytes(vstd::slice::slice_subrange(b, off + 8, off + 20));
        let ghost prev_entries = entries@;
        entries.push((key, link));
        proof {
            let tail = b@.skip(off as int);
            assert(tail.subrange(0, 8) =~= b@.subrange(off as int, off + 8));
            assert(tail.subrange(8, 20) =~= b@.subrange(off + 8, off + 20));
            assert(tail.skip(UNIQUE_ENTRY_SIZE as int) =~= b@.skip(off + UNIQUE_ENTRY_SIZE));
            assert(spec_dec_unique_entries(tail, (n - i) as nat) == (
            match spec_dec_unique_entries(b@.skip(off + UNIQUE_ENTRY_SIZE), (n - i - 1) as nat) {
                Some(rest2) => Some(seq![(key, link)] + rest2),
                None => None,
            }));
            assert(entries@ =~= prev_entries.push((key, link)));
            match spec_dec_unique_entries(b@.skip(off + UNIQUE_ENTRY_SIZE), (n - i - 1) as nat) {
                Some(rest2) => {
                    assert(prev_entries + (seq![(key, link)] + rest2) =~= entries@ + rest2);
                },
                None => {},
            }
        }
        off = off + UNIQUE_ENTRY_SIZE;
        i = i + 1;
    }
    proof {
        assert(spec_dec_unique_entries(b@.skip(off as int), 0) == Some(
            Seq::<(i64, PageLink)>::empty(),
        ));
        assert(entries@ + Seq::<(i64, PageLink)>::empty() =~= entries@);
    }
    Ok(GeneralPage { header, inner: UniqueIndexData { entries } })
}

/// Reads a non-unique-index page from one fixed-size block; fails exactly
/// when the block's entries do not decode.
pub fn decode_npage(b: &[u8]) -> (r: Result<
    GeneralPage<NonUniqueIndexData>,
    crate::table::WorkTableError,
>)
    requires
        b@.len() == PAGE_SIZE,
    ensures
        match r {
            Ok(p) => spec_npage_decodes(b@, p),
            Err(e) => {
                &&& e == crate::table::WorkTableError::PagesError(
                    crate::pages::PagesExecutionError::DeserializeError,
                )
                &&& spec_dec_nu_entries(
                    b@.skip(22),
                    spec_u32_from_le_bytes(b@.subrange(18, 22)) as nat,
                ) is None
            },
        },
{
    let header = GeneralHeader::decode(vstd::slice::slice_subrange(b, 0, GENERAL_HEADER_SIZE));
    let count = u32_from_le_bytes(vstd::slice::slice_subrange(b, 18, 22));
    let ghost n = count as nat;
    let mut entries: Vec<(Vec<u8>, Vec<PageLink>)> = Vec::new();
    let mut off: usize = 22;
    let mut i: u32 = 0;
    let err = crate::table::WorkTableError::PagesError(
        crate::pages::PagesExecutionError::DeserializeError,
    );
    proof {
        assert(spec_nu_model(entries@) =~= Seq::<(Seq<u8>, Seq<PageLink>)>::empty());
    }
    while i < count
        invariant
            i <= count,
            22 <= off <= PAGE_SIZE,
            b@.len() == PAGE_SIZE,
            entries@.len() == i,
            n == count as nat,
            count == spec_u32_from_le_bytes(b@.subrange(18, 22)),
            err == crate::table::WorkTableError::PagesError(
                crate::pages::PagesExecutionError::DeserializeError,
            ),
            spec_dec_nu_entries(b@.skip(22), n) == (match spec_dec_nu_entries(
                b@.skip(off as int),
                (n - i) as nat,
            ) {
                Some(rest) => Some(spec_nu_model(entries@) + rest),
                None => None,
            }),
        decreases count - i,
    {
        let ghost tail = b@.skip(off as int);
        if PAGE_SIZE - off < 4 {
            proof {
                assert(spec_dec_nu_entry(tail) is None);
            }
            return Err(err);
        }
        let klen32 = u32_from_le_bytes(vstd::slice::slice_subrange(b, off, off + 4));
        proof {
            assert(tail.subrange(0, 4) =~= b@.subrange(off as int, off + 4));
        }
        let rem = PAGE_SIZE - off;
        if (klen32 as u64) + 8 > rem as u64 {
            proof {
                assert(tail.len() < 4 + klen32 + 4);
                assert(spec_dec_nu_entry(tail) is None);
            }
            return Err(err);
        }
        let klen = klen32 as usize;
        let key = vstd::slice::slice_to_vec(
            vstd::slice::slice_subrange(b, off + 4, off + 4 + klen),
        );
        let lcount = u32_from_le_bytes(
            vstd::slice::slice_subrange(b, off + 4 + klen, off + 8 + klen),
        );
        proof {
            assert(tail.subrange(4, 4 + klen as int) =~= b@.subrange(off + 4, off + 4 + klen));
            assert(tail.subrange(4 + klen as int, 8 + klen as int) =~= b@.subrange(
                off + 4 + klen,
                off + 8 + klen,
            ));
        }
        let mut links: Vec<PageLink> = Vec::new();
        let mut loff: usize = off + 8 + klen;
        let mut li: u32 = 0;
        proof {
            assert(tail.skip(8 + klen as int) =~= b@.skip(off + 8 + klen));
        }
        while li < lcount
            invariant
                li <= lcount,
                off + 8 + klen <= loff <= PAGE_SIZE,
                loff == off + 8 + klen + LINK_LENGTH * li,
                b@.len() == PAGE_SIZE,
                22 <= off,
                off + 8 + klen <= PAGE_SIZE,
                tail == b@.skip(off as int),
                klen == klen32 as int,
                spec_u32_from_le_bytes(tail.subrange(0, 4)) == klen32,
                spec_u32_from_le_bytes(tail.subrange(4 + klen as int, 8 + klen as int)) == lcount,
                links@.len() == li,
                i < count,
                n == count as nat,
                count == spec_u32_from_le_bytes(b@.subrange(18, 22)),
                spec_dec_nu_entries(b@.skip(22), n) == (match spec_dec_nu_entries(
                    b@.skip(off as int),
                    (n - i) as nat,
                ) {
                    Some(rest) => Some(spec_nu_model(entries@) + rest),
                    None => None,
                }),
                err == crate::table::WorkTableError::PagesError(
                    crate::pages::PagesExecutionError::DeserializeError,
                ),
                spec_dec_links(b@.skip(off + 8 + klen), lcount as nat) == (match spec_dec_links(
                    b@.skip(loff as int),
                    (lcount - li) as nat,
                ) {
                    Some(rest) => Some(links@ + rest),
                    None => None,
                }),
            decreases lcount - li,
        {
            if PAGE_SIZE - loff < LINK_LENGTH {
                proof {
                    assert(spec_dec_links(b@.skip(loff as int), (lcount - li) as nat) is None);
                    assert(spec_dec_links(b@.skip(off + 8 + klen), lcount as nat) is None);
                    assert(tail.skip(8 + klen as int) =~= b@.skip(off + 8 + klen));
                    assert(spec_dec_nu_entry(tail) is None);
                    assert(spec_dec_nu_entries(b@.skip(off as int), (n - i) as nat) is None);
                    assert(spec_dec_nu_entries(b@.skip(22), n) is None);
                }
                return Err(err);
            }
            let link = PageLink::from_bytes(
                vstd::slice::slice_subrange(b, loff, loff + LINK_LENGTH),
            );
            let ghost prev_links = links@;
            links.push(link);
            proof {
                let ltail = b@.skip(loff as int);
                assert(ltail.subrange(0, 12) =~= b@.subrange(loff as int, loff + 12));
                assert(ltail.skip(LINK_LENGTH as int) =~= b@.skip(loff + LINK_LENGTH));
                assert(links@ =~= prev_links.push(link));
                match spec_dec_links(b@.skip(loff + LINK_LENGTH), (lcount - li - 1) as nat) {
                    Some(rest2) => {
                        assert(prev_links + (seq![link] + rest2) =~= links@ + rest2);
                    },
                    None => {},
                }
            }
            loff = loff + LINK_LENGTH;
            li = li + 1;
        }
        proof {
            assert(spec_dec_links(b@.skip(loff as int), 0) == Some(Seq::<PageLink>::empty()));
            assert(links@ + Seq::<PageLink>::empty() =~= links@);
            assert(spec_dec_links(b@.skip(off + 8 + klen), lcount as nat) == Some(links@));
        }
        let ghost prev_entries = entries@;
        let ghost key_snap = key@;
        let ghost links_snap = links@;
        entries.push((key, links));
        proof {
            assert(spec_dec_nu_entry(tail) == Some(
                ((key_snap, links_snap), 8 + klen + LINK_LENGTH * (lcount as int)),
            )) by {
                assert(tail.subrange(4, 4 + klen as int) == key_snap);
                assert(tail.skip(8 + klen as int) =~= b@.skip(off + 8 + klen));
            }
            let used = 8 + klen + LINK_LENGTH * (lcount as int);
            assert(tail.skip(used) =~= b@.skip(off + used));
            assert forall|i2: int| 0 <= i2 < prev_entries.len() implies spec_nu_model(
                entries@,
            )[i2] == spec_nu_model(prev_entries)[i2] by {
                assert(entries@[i2] == prev_entries[i2]);
            }
            assert(spec_nu_model(entries@).last() == (key_snap, links_snap));
            match spec_dec_nu_entries(b@.skip(off + used), (n - i - 1) as nat) {
                Some(rest2) => {
                    assert(spec_nu_model(prev_entries) + (seq![(key_snap, links_snap)] + rest2)
                        =~= spec_nu_model(entries@) + rest2);
                },
                None => {},
            }
        }
        off = off + 8 + klen + LINK_LENGTH * (lcount as usize);
        i = i + 1;
    }
    proof {
        assert(spec_dec_nu_entries(b@.skip(off as int), 0) == Some(
            Seq::<(Seq<u8>, Seq<PageLink>)>::empty(),
        ));
        assert(spec_nu_model(entries@) + Seq::<(Seq<u8>, Seq<PageLink>)>::empty()
            =~= spec_nu_model(entries@));
    }
    Ok(GeneralPage { header, inner: NonUniqueIndexData { entries } })
}

/// The wire form of one inclusive page-id interval: two little-endian
/// words.
pub open spec fn spec_enc_interval(iv: Interval) -> Seq<u8> {
    spec_u32_to_le_bytes(iv.0) + spec_u32_to_le_bytes(iv.1)
}

/// The wire form of a run of intervals.
pub open spec fn spec_enc_intervals(s: Seq<Interval>) -> Seq<u8>
    decreases s.len(),
{
    if s.len() == 0 {
        Seq::empty()
    } else {
        spec_enc_interval(s[0]) + spec_enc_intervals(s.skip(1))
    }
}

/// The wire form of one interval-table entry: the name length, the name
/// bytes, the interval count, then the intervals.
pub open spec fn spec_enc_interval_entry(e: (Seq<u8>, Seq<Interval>)) -> Seq<u8> {
    spec_u32_to_le_bytes(e.0.len() as u32) + e.0 + spec_u32_to_le_bytes(e.1.len() as u32)
        + spec_enc_intervals(e.1)
}

/// The wire form of a run of interval-table entries.
pub open spec fn spec_enc_interval_entries(s: Seq<(Seq<u8>, Seq<Interval>)>) -> Seq<u8>
    decreases s.len(),
{
    if s.len() == 0 {
        Seq::empty()
    } else {
        spec_enc_interval_entry(s[0]) + spec_enc_interval_entries(s.skip(1))
    }
}

/// The interval table's entries, with views taken.
pub open spec fn spec_iv_model(s: Seq<(Vec<u8>, Vec<Interval>)>) -> Seq<(Seq<u8>, Seq<Interval>)> {
    Seq::new(s.len(), |i: int| (s[i].0@, s[i].1@))
}

/// The fixed-size wire form of the interval-table page: the header, the
/// entry count, the entries, zero padding.
pub open spec fn spec_enc_interval_page(h: GeneralHeader, ivs: Seq<(Seq<u8>, Seq<Interval>)>) -> Seq<u8> {
    let body = spec_u32_to_le_bytes(ivs.len() as u32) + spec_enc_interval_entries(ivs);
    spec_enc_header(h) + body + spec_zeros(INDEX_PAGE_BODY_SIZE - body.len())
}

/// Appending one interval extends the run's wire form at its end.
pub proof fn lemma_enc_intervals_snoc(s: Seq<Interval>, iv: Interval)
    ensures
        spec_enc_intervals(s.push(iv)) == spec_enc_intervals(s) + spec_enc_interval(iv),
    decreases s.len(),
{
    if s.len() == 0 {
        assert(s.push(iv)[0] == iv);
        assert(s.push(iv).skip(1) =~= Seq::<Interval>::empty());
        assert(spec_enc_intervals(s.push(iv)) == spec_enc_interval(s.push(iv)[0])
            + spec_enc_intervals(s.push(iv).skip(1)));
        assert(spec_enc_intervals(s.push(iv).skip(1)).len() == 0);
        assert(spec_enc_intervals(s.push(iv)) =~= spec_enc_interval(iv));
        assert(spec_enc_intervals(s) + spec_enc_interval(iv) =~= spec_enc_interval(iv));
    } else {
        assert(s.push(iv)[0] == s[0]);
        assert(s.push(iv).skip(1) =~= s.skip(1).push(iv));
        lemma_enc_intervals_snoc(s.skip(1), iv);
        assert(spec_enc_intervals(s.push(iv)) =~= spec_enc_intervals(s) + spec_enc_interval(iv));
    }
}

/// Appending one entry extends the run's wire form at its end.
pub proof fn lemma_enc_interval_entries_snoc(s: Seq<(Seq<u8>, Seq<Interval>)>, e: (Seq<u8>, Seq<Interval>))
    ensures
        spec_enc_interval_entries(s.push(e)) == spec_enc_interval_entries(s)
            + spec_enc_interval_entry(e),
    decreases s.len(),
{
    if s.len() == 0 {
        assert(s.push(e)[0] == e);
        assert(s.push(e).skip(1) =~= Seq::<(Seq<u8>, Seq<Interval>)>::empty());
        assert(spec_enc_interval_entries(s.push(e)) == spec_enc_interval_entry(s.push(e)[0])
            + spec_enc_interval_entries(s.push(e).skip(1)));
        assert(spec_enc_interval_entries(s.push(e).skip(1)).len() == 0);
        assert(spec_enc_interval_entries(s.push(e)) =~= spec_enc_interval_entry(e));
        assert(spec_enc_interval_entries(s) + spec_enc_interval_entry(e)
            =~= spec_enc_interval_entry(e));
    } else {
        assert(s.push(e)[0] == s[0]);
        assert(s.push(e).skip(1) =~= s.skip(1).push(e));
        lemma_enc_interval_entries_snoc(s.skip(1), e);
        assert(spec_enc_interval_entries(s.push(e)) =~= spec_enc_interval_entries(s)
            + spec_enc_interval_entry(e));
    }
}

/// Serializes the interval table into one fixed-size page: the header, the
/// entry count, then each index name and its intervals, zero-padded. The
/// table of this schema always fits one page.
#[verifier::loop_isolation(false)]
pub fn encode_interval_page(h: &GeneralHeader, intervals: &Vec<(Vec<u8>, Vec<Interval>)>) -> (r:
    Vec<u8>)
    requires
        intervals@.len() <= 16,
        forall|i: int|
            0 <= i < intervals@.len() ==> (#[trigger] intervals@[i]).0@.len() <= 64
                && intervals@[i].1@.len() <= 16,
    ensures
        r@.len() == PAGE_SIZE,
        r@ == spec_enc_interval_page(*h, spec_iv_model(intervals@)),
        r@.subrange(0, GENERAL_HEADER_SIZE as int) == spec_enc_header(*h),
{
    proof {
        lemma_header_roundtrip(*h);
        lemma_auto_spec_u32_to_from_le_bytes();
    }
    let ghost ivm = spec_iv_model(intervals@);
    let mut r = h.encode();
    let mut b = u32_to_le_bytes(intervals.len() as u32);
    r.append(&mut b);
    let ghost prefix = r@;
    let mut i: usize = 0;
    proof {
        assert(ivm.subrange(0, 0) =~= Seq::<(Seq<u8>, Seq<Interval>)>::empty());
        assert(r@ =~= prefix + spec_enc_interval_entries(ivm.subrange(0, 0)));
    }
    while i < intervals.len()
        invariant
            i <= intervals@.len(),
            intervals@.len() <= 16,
            ivm == spec_iv_model(intervals@),
            forall|k: int|
                0 <= k < intervals@.len() ==> (#[trigger] intervals@[k]).0@.len() <= 64
                    && intervals@[k].1@.len() <= 16,
            r@.len() <= GENERAL_HEADER_SIZE + 4 + i * 200,
            prefix.len() == GENERAL_HEADER_SIZE + 4,
            r@ == prefix + spec_enc_interval_entries(ivm.subrange(0, i as int)),
        decreases intervals@.len() - i,
    {
        let ghost before = r@;
        let mut nb = u32_to_le_bytes(intervals[i].0.len() as u32);
        r.append(&mut nb);
        let mut name = copy_bytes(&intervals[i].0);
        r.append(&mut name);
        let mut cb = u32_to_le_bytes(intervals[i].1.len() as u32);
        r.append(&mut cb);
        let ghost entry_prefix = r@;
        let mut j: usize = 0;
        proof {
            assert(ivm[i as int].1.subrange(0, 0) =~= Seq::<Interval>::empty());
            assert(r@ =~= entry_prefix + spec_enc_intervals(ivm[i as int].1.subrange(0, 0)));
        }
        while j < intervals[i].1.len()
            invariant
                j <= intervals@[i as int].1@.len(),
                i < intervals@.len(),
                r@ == entry_prefix + spec_enc_intervals(ivm[i as int].1.subrange(0, j as int)),
            decreases intervals@[i as int].1@.len() - j,
        {
            let iv = intervals[i].1[j];
            let mut s0 = u32_to_le_bytes(iv.0);
            r.append(&mut s0);
            let mut s1 = u32_to_le_bytes(iv.1);
            r.append(&mut s1);
            proof {
                lemma_enc_intervals_snoc(
                    ivm[i as int].1.subrange(0, j as int),
                    ivm[i as int].1[j as int],
                );
                assert(ivm[i as int].1.subrange(0, j + 1) =~= ivm[i as int].1.subrange(
                    0,
                    j as int,
                ).push(ivm[i as int].1[j as int]));
                assert(r@ =~= entry_prefix + spec_enc_intervals(
                    ivm[i as int].1.subrange(0, j + 1),
                ));
            }
            j = j + 1;
        }
        proof {
            assert(ivm[i as int].1.subrange(0, ivm[i as int].1.len() as int)
                =~= ivm[i as int].1);
            assert(r@ =~= before + spec_enc_interval_entry(ivm[i as int]));
            lemma_enc_interval_entries_snoc(ivm.subrange(0, i as int), ivm[i as int]);
            assert(ivm.subrange(0, i + 1) =~= ivm.subrange(0, i as int).push(ivm[i as int]));
            assert(r@ =~= prefix + spec_enc_interval_entries(ivm.subrange(0, i + 1)));
            lemma_links_roundtrip(Seq::empty(), Seq::empty());
            assert(spec_enc_interval_entry(ivm[i as int]).len() == 8 + ivm[i as int].0.len() + 8
                * ivm[i as int].1.len()) by {
                lemma_enc_intervals_len(ivm[i as int].1);
            }
        }
        i = i + 1;
    }
    proof {
        assert(ivm.subrange(0, ivm.len() as int) =~= ivm);
    }
    let ghost used = prefix.len() + spec_enc_interval_entries(ivm).len();
    let mut k: usize = r.len();
    while k < PAGE_SIZE
        invariant
            r@.len() == k,
            k <= PAGE_SIZE,
            used == prefix.len() + spec_enc_interval_entries(ivm).len(),
            used <= k,
            r@ == prefix + spec_enc_interval_entries(ivm) + spec_zeros(k - used),
        decreases PAGE_SIZE - k,
    {
        r.push(0u8);
        proof {
            assert(r@ =~= prefix + spec_enc_interval_entries(ivm) + spec_zeros(k + 1 - used));
        }
        k = k + 1;
    }
    proof {
        assert(r@ =~= spec_enc_interval_page(*h, ivm));
        assert(r@.subrange(0, GENERAL_HEADER_SIZE as int) =~= spec_enc_header(*h));
    }
    r
}

/// A run of intervals is eight bytes each on the wire.
pub proof fn lemma_enc_intervals_len(s: Seq<Interval>)
    ensures
        spec_enc_intervals(s).len() == 8 * s.len(),
    decreases s.len(),
{
    lemma_auto_spec_u32_to_from_le_bytes();
    if s.len() > 0 {
        lemma_enc_intervals_len(s.skip(1));
    }
}

impl crate::table::WorkTable {
    /// Renders the table's on-disk index file: the interval-table page
    /// first, then both index page chains in declaration order, every page
    /// one fixed-size block. Writing these bytes out and parsing them back
    /// recovers the indexes.
    pub fn persist(&self) -> (r: Result<Vec<u8>, crate::table::WorkTableError>)
        requires
            self.wf(),
        ensures
            match r {
                Ok(f) => exists|p: TestIndexesPersisted|
                    {
                        &&& #[trigger] p.wf()
                        &&& spec_chain_ok(
                            spec_uheaders(p.test_idx@) + spec_nheaders(p.exchange_idx@),
                            1,
                        )
                        &&& unique_entries_match(
                            spec_concat_u(spec_uinners(p.test_idx@)),
                            self.uq(),
                        )
                        &&& nu_entries_match(spec_concat_n(spec_ninners(p.exchange_idx@)), self.nu())
                        &&& f@.len() == PAGE_SIZE + p.spec_bytes().len()
                        &&& f@.skip(PAGE_SIZE as int) == p.spec_bytes()
                        &&& f@.subrange(0, PAGE_SIZE as int) == spec_enc_interval_page(
                            GeneralHeader {
                                page_id: 1,
                                previous_id: 0,
                                next_id: 2,
                                space_left: 0,
                                page_kind: PAGE_KIND_INTERVAL,
                            },
                            spec_table_intervals(p),
                        )
                    },
                Err(e) => {
                    &&& e == crate::table::WorkTableError::SerializeError
                    &&& {
                        ||| exists|k: Seq<u8>|
                            #[trigger] self.nu().contains_key(k) && !spec_nu_key_fits(k)
                        ||| spec_chain_overflow(self.uq(), self.nu(), 1)
                    }
                },
            },
    {
        let mut header = GeneralHeader {
            page_id: 1,
            previous_id: 0,
            next_id: 0,
            space_left: 0,
            page_kind: PAGE_KIND_INTERVAL,
        };
        proof {
            assert forall|k: Seq<u8>|
                #[trigger] crate::index::non_unique_index_view(
                    self.indexes.exchange_idx,
                ).contains_key(k) implies !crate::index::non_unique_index_view(
                self.indexes.exchange_idx,
            )[k].is_empty() by {
                assert(self.nu().contains_key(k));
            }
        }
        let persisted = match self.indexes.get_persisted_index(&mut header) {
            Ok(p) => p,
            Err(e) => {
                return Err(e);
            },
        };
        let intervals = persisted.get_intervals();
        let mut file = encode_interval_page(&header, &intervals);
        let ghost interval_page = file@;
        proof {
            assert(spec_iv_model(intervals@) =~~= spec_table_intervals(persisted));
        }
        persisted.persist(&mut file);
        proof {
            assert(file@.skip(PAGE_SIZE as int) =~= persisted.spec_bytes());
            assert(file@.subrange(0, PAGE_SIZE as int) =~= interval_page);
        }
        Ok(file)
    }
}

/// The interval table a persisted snapshot reports: each index's byte name
/// and the one inclusive page-id range of its chain, in declaration order.
pub open spec fn spec_table_intervals(p: TestIndexesPersisted) -> Seq<(Seq<u8>, Seq<Interval>)>
    recommends
        p.wf(),
{
    seq![
        (
            spec_test_idx_name(),
            seq![
                Interval(
                    p.test_idx@[0].header.page_id,
                    p.test_idx@[p.test_idx@.len() - 1].header.page_id,
                ),
            ],
        ),
        (
            spec_exchange_idx_name(),
            seq![
                Interval(
                    p.exchange_idx@[0].header.page_id,
                    p.exchange_idx@[p.exchange_idx@.len() - 1].header.page_id,
                ),
            ],
        ),
    ]
}

/// The chain the persister emits is continuous: following `next_id` from
/// the first page visits every page exactly once, in id order, and ends at
/// the zero sentinel.
pub proof fn lemma_chain_continuity(hs: Seq<GeneralHeader>, base: u32)
    requires
        spec_chain_ok(hs, base),
        hs.len() >= 1,
    ensures
        forall|j: int| 0 <= j < hs.len() - 1 ==> (#[trigger] hs[j]).next_id == hs[j + 1].page_id,
        hs[hs.len() - 1].next_id == 0,
        forall|i: int, j: int|
            0 <= i < j < hs.len() ==> (#[trigger] hs[i]).page_id != (#[trigger] hs[j]).page_id,
{
}

/// A page id lies within an inclusive interval.
pub open spec fn spec_in_interval(id: u32, iv: Interval) -> bool {
    iv.0 <= id <= iv.1
}

/// The single interval reported for each index covers exactly the page ids
/// its chain emitted.
pub proof fn lemma_interval_coverage(p: TestIndexesPersisted, base: u32)
    requires
        p.wf(),
        spec_chain_ok(spec_uheaders(p.test_idx@) + spec_nheaders(p.exchange_idx@), base),
    ensures
        forall|id: u32|
            #[trigger] spec_in_interval(
                id,
                Interval(
                    p.test_idx@[0].header.page_id,
                    p.test_idx@[p.test_idx@.len() - 1].header.page_id,
                ),
            ) <==> exists|j: int|
                0 <= j < p.test_idx@.len() && (#[trigger] p.test_idx@[j]).header.page_id == id,
        forall|id: u32|
            #[trigger] spec_in_interval(
                id,
                Interval(
                    p.exchange_idx@[0].header.page_id,
                    p.exchange_idx@[p.exchange_idx@.len() - 1].header.page_id,
                ),
            ) <==> exists|j: int|
                0 <= j < p.exchange_idx@.len() && (#[trigger] p.exchange_idx@[j]).header.page_id
                    == id,
{
    let hs = spec_uheaders(p.test_idx@) + spec_nheaders(p.exchange_idx@);
    let t = p.test_idx@.len() as int;
    let e = p.exchange_idx@.len() as int;
    assert forall|j: int| 0 <= j < t implies (#[trigger] p.test_idx@[j]).header.page_id == base + 1
        + j by {
        assert(hs[j] == p.test_idx@[j].header);
    }
    assert forall|j: int| 0 <= j < e implies (#[trigger] p.exchange_idx@[j]).header.page_id == base
        + 1 + t + j by {
        assert(hs[t + j] == p.exchange_idx@[j].header);
    }
    assert forall|id: u32|
        #[trigger] spec_in_interval(
            id,
            Interval(p.test_idx@[0].header.page_id, p.test_idx@[t - 1].header.page_id),
        ) implies exists|j: int|
        0 <= j < t && (#[trigger] p.test_idx@[j]).header.page_id == id by {
        let j = id - (base + 1);
        assert(0 <= j < t && p.test_idx@[j].header.page_id == id);
    }
    assert forall|id: u32|
        #[trigger] spec_in_interval(
            id,
            Interval(p.exchange_idx@[0].header.page_id, p.exchange_idx@[e - 1].header.page_id),
        ) implies exists|j: int|
        0 <= j < e && (#[trigger] p.exchange_idx@[j]).header.page_id == id by {
        let j = id - (base + 1 + t);
        assert(0 <= j < e && p.exchange_idx@[j].header.page_id == id);
    }
}

/// A file the persister emits is owed a successful parse: with the interval
/// table it reported, every page block of both chains lies within the file
/// and decodes, so `parse_from_file` returns the pages and `from_persisted`
/// rebuilds the indexes' exact contents.
pub proof fn lemma_persisted_file_parses(
    p: TestIndexesPersisted,
    f: Seq<u8>,
    ivs: Seq<(Vec<u8>, Vec<Interval>)>,
)
    requires
        p.wf(),
        spec_chain_ok(spec_uheaders(p.test_idx@) + spec_nheaders(p.exchange_idx@), 1),
        f.len() == PAGE_SIZE + p.spec_bytes().len(),
        f.skip(PAGE_SIZE as int) == p.spec_bytes(),
        spec_lookup_interval(ivs, spec_test_idx_name()) == Some(
            Interval(
                p.test_idx@[0].header.page_id,
                p.test_idx@[p.test_idx@.len() - 1].header.page_id,
            ),
        ),
        spec_lookup_interval(ivs, spec_exchange_idx_name()) == Some(
            Interval(
                p.exchange_idx@[0].header.page_id,
                p.exchange_idx@[p.exchange_idx@.len() - 1].header.page_id,
            ),
        ),
    ensures
        spec_file_parses(f, ivs),
{
    let hs = spec_uheaders(p.test_idx@) + spec_nheaders(p.exchange_idx@);
    let t = p.test_idx@.len() as int;
    let e = p.exchange_idx@.len() as int;
    lemma_bytes_u_len(p.test_idx@);
    lemma_bytes_n_len(p.exchange_idx@);
    assert(hs[0] == p.test_idx@[0].header);
    assert(hs[t - 1] == p.test_idx@[t - 1].header);
    assert(hs[t] == p.exchange_idx@[0].header);
    assert(hs[t + e - 1] == p.exchange_idx@[e - 1].header);
    let iu = Interval(p.test_idx@[0].header.page_id, p.test_idx@[t - 1].header.page_id);
    let ix = Interval(p.exchange_idx@[0].header.page_id, p.exchange_idx@[e - 1].header.page_id);
    assert(iu.0 == 2 && iu.1 == 1 + t && ix.0 == 2 + t && ix.1 == 1 + t + e);
    assert(f.len() == PAGE_SIZE * (1 + t + e)) by (nonlinear_arith)
        requires
            f.len() == PAGE_SIZE + PAGE_SIZE * t + PAGE_SIZE * e,
    ;
    assert(PAGE_SIZE * (iu.1 as int) <= f.len() && PAGE_SIZE * (ix.1 as int) <= f.len())
        by (nonlinear_arith)
        requires
            f.len() == PAGE_SIZE * (1 + t + e),
            iu.1 == 1 + t,
            ix.1 == 1 + t + e,
            t >= 1,
            e >= 1,
            PAGE_SIZE == 4096,
    ;
    assert forall|j: int| 0 <= j <= iu.1 - iu.0 implies spec_ublock_decodes(
        #[trigger] f.subrange(PAGE_SIZE * (iu.0 + j - 1), PAGE_SIZE * (iu.0 + j)),
    ) by {
        lemma_bytes_u_block(p.test_idx@, j);
        lemma_upage_roundtrip(p.test_idx@[j]);
        assert(PAGE_SIZE * (iu.0 + j - 1) == PAGE_SIZE + PAGE_SIZE * j && PAGE_SIZE * (iu.0 + j)
            == PAGE_SIZE + PAGE_SIZE * (j + 1) && 0 <= PAGE_SIZE * j && PAGE_SIZE * (j + 1)
            <= PAGE_SIZE * t && PAGE_SIZE * t <= PAGE_SIZE * t + PAGE_SIZE * e)
            by (nonlinear_arith)
            requires
                iu.0 == 2,
                0 <= j < t,
                e >= 0,
                PAGE_SIZE == 4096,
        ;
        assert(f.subrange(PAGE_SIZE * (iu.0 + j - 1), PAGE_SIZE * (iu.0 + j)) =~= p.spec_bytes(
        ).subrange(PAGE_SIZE * j, PAGE_SIZE * (j + 1)));
        assert(p.spec_bytes().subrange(PAGE_SIZE * j, PAGE_SIZE * (j + 1)) =~= spec_bytes_u(
            p.test_idx@,
        ).subrange(PAGE_SIZE * j, PAGE_SIZE * (j + 1)));
    }
    assert forall|j: int| 0 <= j <= ix.1 - ix.0 implies spec_nblock_decodes(
        #[trigger] f.subrange(PAGE_SIZE * (ix.0 + j - 1), PAGE_SIZE * (ix.0 + j)),
    ) by {
        lemma_bytes_n_block(p.exchange_idx@, j);
        lemma_npage_roundtrip(p.exchange_idx@[j]);
        assert(PAGE_SIZE * (ix.0 + j - 1) == PAGE_SIZE + PAGE_SIZE * (t + j) && PAGE_SIZE * (ix.0
            + j) == PAGE_SIZE + PAGE_SIZE * (t + j + 1) && PAGE_SIZE * t <= PAGE_SIZE * (t + j)
            && PAGE_SIZE * (t + j + 1) <= PAGE_SIZE * t + PAGE_SIZE * e && PAGE_SIZE * (t + j)
            - PAGE_SIZE * t == PAGE_SIZE * j && PAGE_SIZE * (t + j + 1) - PAGE_SIZE * t
            == PAGE_SIZE * (j + 1)) by (nonlinear_arith)
            requires
                ix.0 == 2 + t,
                0 <= j < e,
                t >= 1,
                PAGE_SIZE == 4096,
        ;
        assert(f.subrange(PAGE_SIZE * (ix.0 + j - 1), PAGE_SIZE * (ix.0 + j)) =~= p.spec_bytes(
        ).subrange(PAGE_SIZE * (t + j), PAGE_SIZE * (t + j + 1)));
        assert(p.spec_bytes().subrange(PAGE_SIZE * (t + j), PAGE_SIZE * (t + j + 1))
            =~= spec_bytes_n(p.exchange_idx@).subrange(PAGE_SIZE * j, PAGE_SIZE * (j + 1)));
    }
}

/// Persisting and parsing round-trips: each block of a persisted index's
/// wire form decodes back to exactly the page that produced it, so parsing
/// the file recovers every page, and with them every `(key, link)` entry of
/// every index.
pub proof fn lemma_persist_parse_roundtrip(p: TestIndexesPersisted)
    requires
        p.wf(),
    ensures
        p.spec_bytes().len() == PAGE_SIZE * (p.test_idx@.len() + p.exchange_idx@.len()),
        forall|j: int|
            0 <= j < p.test_idx@.len() ==> spec_upage_decodes(
                p.spec_bytes().subrange(PAGE_SIZE * j, PAGE_SIZE * (j + 1)),
                #[trigger] p.test_idx@[j],
            ),
        forall|j: int|
            0 <= j < p.exchange_idx@.len() ==> spec_npage_decodes(
                p.spec_bytes().subrange(
                    PAGE_SIZE * (p.test_idx@.len() + j),
                    PAGE_SIZE * (p.test_idx@.len() + j + 1),
                ),
                #[trigger] p.exchange_idx@[j],
            ),
{
    let t = p.test_idx@.len() as int;
    lemma_bytes_u_len(p.test_idx@);
    lemma_bytes_n_len(p.exchange_idx@);
    assert forall|j: int| 0 <= j < t implies spec_upage_decodes(
        p.spec_bytes().subrange(PAGE_SIZE * j, PAGE_SIZE * (j + 1)),
        #[trigger] p.test_idx@[j],
    ) by {
        lemma_bytes_u_block(p.test_idx@, j);
        lemma_upage_roundtrip(p.test_idx@[j]);
        assert(p.spec_bytes().subrange(PAGE_SIZE * j, PAGE_SIZE * (j + 1)) =~= spec_bytes_u(
            p.test_idx@,
        ).subrange(PAGE_SIZE * j, PAGE_SIZE * (j + 1)));
        let b = spec_enc_upage(p.test_idx@[j]);
        assert(b.subrange(0, GENERAL_HEADER_SIZE as int) =~= b.subrange(
            0,
            GENERAL_HEADER_SIZE as int,
        ));
    }
    assert forall|j: int| 0 <= j < p.exchange_idx@.len() implies spec_npage_decodes(
        p.spec_bytes().subrange(PAGE_SIZE * (t + j), PAGE_SIZE * (t + j + 1)),
        #[trigger] p.exchange_idx@[j],
    ) by {
        lemma_bytes_n_block(p.exchange_idx@, j);
        lemma_npage_roundtrip(p.exchange_idx@[j]);
        assert(p.spec_bytes().subrange(PAGE_SIZE * (t + j), PAGE_SIZE * (t + j + 1))
            =~= spec_bytes_n(p.exchange_idx@).subrange(PAGE_SIZE * j, PAGE_SIZE * (j + 1)));
    }
}

/// The `(key, link)` pairs one entry stands for.
pub open spec fn spec_entry_pairs(e: (Seq<u8>, Seq<PageLink>)) -> Seq<(Seq<u8>, PageLink)> {
    Seq::new(e.1.len(), |i: int| (e.0, e.1[i]))
}

/// All `(key, link)` pairs of a run of entries, in order. Two runs that
/// ungroup to the same pairs carry the same index contents, however the
/// pairs are grouped into entries and pages.
pub open spec fn spec_ungroup(s: Seq<(Seq<u8>, Seq<PageLink>)>) -> Seq<(Seq<u8>, PageLink)>
    decreases s.len(),
{
    if s.len() == 0 {
        Seq::empty()
    } else {
        spec_entry_pairs(s[0]) + spec_ungroup(s.skip(1))
    }
}

/// The links a run of entries associates with one key.
pub open spec fn spec_pairs_bucket(pairs: Seq<(Seq<u8>, PageLink)>, k: Seq<u8>) -> Set<PageLink> {
    Set::new(|l: PageLink| exists|i: int| 0 <= i < pairs.len() && #[trigger] pairs[i] == (k, l))
}

/// Appending one entry extends the run's pairs at their end.
pub proof fn lemma_ungroup_snoc(s: Seq<(Seq<u8>, Seq<PageLink>)>, e: (Seq<u8>, Seq<PageLink>))
    ensures
        spec_ungroup(s.push(e)) == spec_ungroup(s) + spec_entry_pairs(e),
    decreases s.len(),
{
    if s.len() == 0 {
        assert(s.push(e)[0] == e);
        assert(s.push(e).skip(1) =~= Seq::<(Seq<u8>, Seq<PageLink>)>::empty());
        assert(spec_ungroup(s.push(e)) == spec_entry_pairs(s.push(e)[0]) + spec_ungroup(
            s.push(e).skip(1),
        ));
        assert(spec_ungroup(s.push(e).skip(1)).len() == 0);
        assert(spec_ungroup(s.push(e)) =~= spec_entry_pairs(e));
        assert(spec_ungroup(s) + spec_entry_pairs(e) =~= spec_entry_pairs(e));
    } else {
        assert(s.push(e)[0] == s[0]);
        assert(s.push(e).skip(1) =~= s.skip(1).push(e));
        lemma_ungroup_snoc(s.skip(1), e);
        assert(spec_ungroup(s.push(e)) =~= spec_ungroup(s) + spec_entry_pairs(e));
    }
}

/// Every pair of a run belongs to some entry of the run.
pub proof fn lemma_ungroup_member(s: Seq<(Seq<u8>, Seq<PageLink>)>, p: int)
    requires
        0 <= p < spec_ungroup(s).len(),
    ensures
        exists|i: int|
            0 <= i < s.len() && (#[trigger] s[i]).0 == spec_ungroup(s)[p].0 && s[i].1.contains(
                spec_ungroup(s)[p].1,
            ),
    decreases s.len(),
{
    if p < spec_entry_pairs(s[0]).len() {
        assert(spec_ungroup(s)[p] == spec_entry_pairs(s[0])[p]);
        assert(s[0].1[p] == spec_entry_pairs(s[0])[p].1);
        assert(s[0].0 == spec_ungroup(s)[p].0 && s[0].1.contains(spec_ungroup(s)[p].1));
    } else {
        lemma_ungroup_member(s.skip(1), p - spec_entry_pairs(s[0]).len());
        let q = p - spec_entry_pairs(s[0]).len();
        let i = choose|i: int|
            0 <= i < s.skip(1).len() && (#[trigger] s.skip(1)[i]).0 == spec_ungroup(s.skip(1))[q].0
                && s.skip(1)[i].1.contains(spec_ungroup(s.skip(1))[q].1);
        assert(s[i + 1] == s.skip(1)[i]);
        assert(spec_ungroup(s)[p] == spec_ungroup(s.skip(1))[q]);
    }
}

/// Every link of every entry appears among the run's pairs.
pub proof fn lemma_ungroup_covers(s: Seq<(Seq<u8>, Seq<PageLink>)>, i: int, li: int)
    requires
        0 <= i < s.len(),
        0 <= li < s[i].1.len(),
    ensures
        exists|p: int|
            0 <= p < spec_ungroup(s).len() && #[trigger] spec_ungroup(s)[p] == (
                s[i].0,
                s[i].1[li],
            ),
    decreases s.len(),
{
    if i == 0 {
        assert(spec_ungroup(s)[li] == spec_entry_pairs(s[0])[li]);
        assert(spec_entry_pairs(s[0])[li] == (s[0].0, s[0].1[li]));
    } else {
        lemma_ungroup_covers(s.skip(1), i - 1, li);
        let p = choose|p: int|
            0 <= p < spec_ungroup(s.skip(1)).len() && #[trigger] spec_ungroup(s.skip(1))[p] == (
                s.skip(1)[i - 1].0,
                s.skip(1)[i - 1].1[li],
            );
        assert(s.skip(1)[i - 1] == s[i]);
        assert(spec_ungroup(s)[p + spec_entry_pairs(s[0]).len()] == spec_ungroup(s.skip(1))[p]);
    }
}

/// A run of entries with non-empty buckets has at least one pair per entry.
pub proof fn lemma_ungroup_len(s: Seq<(Seq<u8>, Seq<PageLink>)>)
    requires
        forall|i: int| 0 <= i < s.len() ==> (#[trigger] s[i]).1.len() >= 1,
    ensures
        spec_ungroup(s).len() >= s.len(),
    decreases s.len(),
{
    if s.len() > 0 {
        assert forall|i: int| 0 <= i < s.skip(1).len() implies (#[trigger] s.skip(1)[i]).1.len()
            >= 1 by {
            assert(s.skip(1)[i] == s[i + 1]);
        }
        lemma_ungroup_len(s.skip(1));
        assert(s[0].1.len() >= 1);
    }
}

/// The links a concatenation of pairs associates with a key are the union
/// of what each half associates with it.
pub proof fn lemma_pairs_bucket_append(a: Seq<(Seq<u8>, PageLink)>, b: Seq<(Seq<u8>, PageLink)>, k: Seq<u8>)
    ensures
        spec_pairs_bucket(a + b, k) == spec_pairs_bucket(a, k).union(spec_pairs_bucket(b, k)),
{
    assert forall|l: PageLink| #[trigger] spec_pairs_bucket(a + b, k).contains(l) implies
        spec_pairs_bucket(a, k).union(spec_pairs_bucket(b, k)).contains(l) by {
        let i = choose|i: int| 0 <= i < (a + b).len() && #[trigger] (a + b)[i] == (k, l);
        if i < a.len() {
            assert(a[i] == (k, l));
        } else {
            assert(b[i - a.len()] == (k, l));
        }
    }
    assert forall|l: PageLink|
        #[trigger] spec_pairs_bucket(a, k).union(spec_pairs_bucket(b, k)).contains(l) implies
        spec_pairs_bucket(a + b, k).contains(l) by {
        if spec_pairs_bucket(a, k).contains(l) {
            let i = choose|i: int| 0 <= i < a.len() && #[trigger] a[i] == (k, l);
            assert((a + b)[i] == (k, l));
        } else {
            let i = choose|i: int| 0 <= i < b.len() && #[trigger] b[i] == (k, l);
            assert((a + b)[a.len() + i] == (k, l));
        }
    }
    assert(spec_pairs_bucket(a + b, k) =~= spec_pairs_bucket(a, k).union(
        spec_pairs_bucket(b, k),
    ));
}

/// One entry's pairs bucket: its own links under its own key, nothing under
/// any other key.
pub proof fn lemma_pairs_bucket_entry(e: (Seq<u8>, Seq<PageLink>), k: Seq<u8>)
    ensures
        k == e.0 ==> spec_pairs_bucket(spec_entry_pairs(e), k) == e.1.to_set(),
        k != e.0 ==> spec_pairs_bucket(spec_entry_pairs(e), k) == Set::<PageLink>::empty(),
{
    if k == e.0 {
        assert forall|l: PageLink| #[trigger] spec_pairs_bucket(spec_entry_pairs(e), k).contains(
            l,
        ) implies e.1.to_set().contains(l) by {
            let i = choose|i: int|
                0 <= i < spec_entry_pairs(e).len() && #[trigger] spec_entry_pairs(e)[i] == (k, l);
            assert(e.1[i] == l);
        }
        assert forall|l: PageLink| #[trigger] e.1.to_set().contains(l) implies spec_pairs_bucket(
            spec_entry_pairs(e),
            k,
        ).contains(l) by {
            let i = choose|i: int| 0 <= i < e.1.len() && #[trigger] e.1[i] == l;
            assert(spec_entry_pairs(e)[i] == (k, l));
        }
        assert(spec_pairs_bucket(spec_entry_pairs(e), k) =~= e.1.to_set());
    } else {
        assert forall|l: PageLink|
            !(#[trigger] spec_pairs_bucket(spec_entry_pairs(e), k).contains(l)) by {
            if spec_pairs_bucket(spec_entry_pairs(e), k).contains(l) {
                let i = choose|i: int|
                    0 <= i < spec_entry_pairs(e).len() && #[trigger] spec_entry_pairs(e)[i] == (
                        k,
                        l,
                    );
                assert(spec_entry_pairs(e)[i].0 == e.0);
            }
        }
        assert(spec_pairs_bucket(spec_entry_pairs(e), k) =~= Set::<PageLink>::empty());
    }
}


} // verus!
