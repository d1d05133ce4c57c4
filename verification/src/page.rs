//! The packed binary page header over an opaque byte buffer.
//!
//! A page buffer starts with a fixed header: a 48-bit little-endian epoch in
//! bytes 0 to 5, a flags byte (bit 0 the tier, bits 1 to 3 the kind), a
//! chain-length byte, and an 8-byte little-endian chain-next address.
//! Everything after the header is the content. All accessors are
//! bounds-checked against a buffer-length precondition established once at
//! construction.

use vstd::prelude::*;
use vstd::seq_lib::*;
use vstd::slice::slice_subrange;

verus! {

/// Number of bytes holding the epoch.
pub const PAGE_EPOCH_LEN: usize = 6;

/// Number of header bytes before the content.
pub const PAGE_HEADER_LEN: usize = 16;

/// Largest value an epoch can hold: it is masked to 48 bits on read.
pub const PAGE_EPOCH_MAX: u64 = 0xFFFF_FFFF_FFFF;

/// The 48-bit little-endian number held in the six bytes of `s`.
pub open spec fn spec_u48_le(s: Seq<u8>) -> u64
    recommends
        s.len() == 6,
{
    (s[0] + s[1] * 0x100 + s[2] * 0x1_0000 + s[3] * 0x100_0000 + s[4] * 0x1_0000_0000 + s[5]
        * 0x100_0000_0000) as u64
}

/// The 64-bit little-endian number held in the eight bytes of `s`.
pub open spec fn spec_u64_le(s: Seq<u8>) -> u64
    recommends
        s.len() == 8,
{
    (s[0] + s[1] * 0x100 + s[2] * 0x1_0000 + s[3] * 0x100_0000 + s[4] * 0x1_0000_0000 + s[5]
        * 0x100_0000_0000 + s[6] * 0x1_0000_0000_0000 + s[7] * 0x100_0000_0000_0000) as u64
}

/// The epoch stored in a page buffer.
pub open spec fn spec_page_epoch(s: Seq<u8>) -> u64 {
    spec_u48_le(s.subrange(0, 6))
}

/// The flags byte stored in a page buffer.
pub open spec fn spec_page_flags(s: Seq<u8>) -> u8 {
    s[6]
}

/// The chain length stored in a page buffer.
pub open spec fn spec_page_chain_len(s: Seq<u8>) -> u8 {
    s[7]
}

/// The chain-next address stored in a page buffer.
pub open spec fn spec_page_chain_next(s: Seq<u8>) -> u64 {
    spec_u64_le(s.subrange(8, 16))
}

/// The content bytes of a page buffer: everything after the header.
pub open spec fn spec_page_content(s: Seq<u8>) -> Seq<u8> {
    s.skip(16)
}

/// The packed meta word summarising bytes 0 to 7 of the header.
pub open spec fn spec_page_meta(s: Seq<u8>) -> u64 {
    (spec_page_epoch(s) + spec_page_flags(s) * 0x1_0000_0000_0000 + spec_page_chain_len(s)
        * 0x100_0000_0000_0000) as u64
}

/// True when a flags byte holds one of the two defined kinds.
pub open spec fn spec_flags_wf(b: u8) -> bool {
    b & 0x0e == 0 || b & 0x0e == 2
}

/// The tier encoded in a flags byte.
pub open spec fn spec_tier_of(b: u8) -> PageTier {
    if b & 0x01 == 1 {
        PageTier::Inner
    } else {
        PageTier::Leaf
    }
}

/// The kind encoded in a flags byte.
pub open spec fn spec_kind_of(b: u8) -> PageKind {
    if b & 0x0e == 2 {
        PageKind::Split
    } else {
        PageKind::Data
    }
}

/// The tree level of a page: a leaf holds data items, an inner page holds
/// child indexes.
#[derive(Copy, Clone, Debug, Eq, PartialEq, Structural)]
pub enum PageTier {
    Leaf,
    Inner,
}

impl PageTier {
    /// The bit this tier contributes to the flags byte.
    pub fn bits(&self) -> (r: u8)
        ensures
            r == self.spec_bits(),
    {
        match self {
            PageTier::Leaf => 0,
            PageTier::Inner => 1,
        }
    }

    /// The bit this tier contributes to the flags byte.
    pub open spec fn spec_bits(&self) -> u8 {
        match self {
            PageTier::Leaf => 0,
            PageTier::Inner => 1,
        }
    }

    /// Reads the tier out of a flags byte.
    pub fn from_bits(value: u8) -> (r: Self)
        ensures
            r == spec_tier_of(value),
    {
        if value & 0x01 == 1 {
            PageTier::Inner
        } else {
            PageTier::Leaf
        }
    }

    pub fn is_leaf(&self) -> (r: bool)
        ensures
            r == (self is Leaf),
    {
        matches!(self, PageTier::Leaf)
    }

    pub fn is_inner(&self) -> (r: bool)
        ensures
            r == (self is Inner),
    {
        matches!(self, PageTier::Inner)
    }
}

/// The role of a page: ordinary data, or a split marker.
#[derive(Copy, Clone, Debug, Eq, PartialEq, Structural)]
pub enum PageKind {
    Data,
    Split,
}

impl PageKind {
    /// The bits this kind contributes to the flags byte.
    pub fn bits(&self) -> (r: u8)
        ensures
            r == self.spec_bits(),
    {
        match self {
            PageKind::Data => 0,
            PageKind::Split => 2,
        }
    }

    /// The bits this kind contributes to the flags byte.
    pub open spec fn spec_bits(&self) -> u8 {
        match self {
            PageKind::Data => 0,
            PageKind::Split => 2,
        }
    }

    /// Reads the kind out of a flags byte holding a defined kind.
    pub fn from_bits(value: u8) -> (r: Self)
        requires
            spec_flags_wf(value),
        ensures
            r == spec_kind_of(value),
    {
        if value & 0x0e == 2 {
            PageKind::Split
        } else {
            PageKind::Data
        }
    }

    pub fn is_data(&self) -> (r: bool)
        ensures
            r == (self is Data),
    {
        matches!(self, PageKind::Data)
    }

    pub fn is_split(&self) -> (r: bool)
        ensures
            r == (self is Split),
    {
        matches!(self, PageKind::Split)
    }
}

/// The flags byte of a page header, packing a kind and a tier.
#[derive(Copy, Clone, Debug)]
pub struct PageFlag(u8);

impl View for PageFlag {
    type V = u8;

    closed spec fn view(&self) -> u8 {
        self.0
    }
}

impl PageFlag {
    /// Packs a kind and a tier into one byte.
    pub fn new(kind: PageKind, tier: PageTier) -> (r: Self)
        ensures
            r@ == kind.spec_bits() | tier.spec_bits(),
            spec_kind_of(r@) == kind,
            spec_tier_of(r@) == tier,
            spec_flags_wf(r@),
    {
        proof {
            assert(0u8 | 0u8 == 0u8 && 0u8 | 1u8 == 1u8 && 2u8 | 0u8 == 2u8 && 2u8 | 1u8 == 3u8
                && 0u8 & 0x0e == 0 && 1u8 & 0x0e == 0 && 2u8 & 0x0e == 2 && 3u8 & 0x0e == 2
                && 0u8 & 0x01 == 0 && 1u8 & 0x01 == 1 && 2u8 & 0x01 == 0 && 3u8 & 0x01 == 1)
                by (bit_vector);
        }
        PageFlag(kind.bits() | tier.bits())
    }

    /// Wraps a raw flags byte.
    pub fn from_bits(value: u8) -> (r: Self)
        ensures
            r@ == value,
    {
        PageFlag(value)
    }

    /// The raw byte.
    pub fn bits(&self) -> (r: u8)
        ensures
            r == self@,
    {
        self.0
    }

    /// The kind packed in the byte.
    pub fn kind(&self) -> (r: PageKind)
        requires
            spec_flags_wf(self@),
        ensures
            r == spec_kind_of(self@),
    {
        PageKind::from_bits(self.0)
    }

    /// The tier packed in the byte.
    pub fn tier(&self) -> (r: PageTier)
        ensures
            r == spec_tier_of(self@),
    {
        PageTier::from_bits(self.0)
    }
}

/// A page buffer: the header plus content, owned as plain bytes. Exclusive
/// methods mutate the header or content in place; shared methods only read.
#[derive(Debug)]
pub struct PagePtr {
    buf: Vec<u8>,
}

impl View for PagePtr {
    type V = Seq<u8>;

    closed spec fn view(&self) -> Seq<u8> {
        self.buf@
    }
}

impl PagePtr {
    /// True when the buffer is large enough to hold the header.
    pub open spec fn wf(&self) -> bool {
        self@.len() >= 16
    }

    /// Takes ownership of a buffer that is at least header-sized.
    pub fn new(buf: Vec<u8>) -> (r: Self)
        requires
            buf@.len() >= 16,
        ensures
            r.wf(),
            r@ == buf@,
    {
        PagePtr { buf }
    }

    /// Gives the buffer back.
    pub fn into_buf(self) -> (r: Vec<u8>)
        ensures
            r@ == self@,
    {
        self.buf
    }

    /// The whole buffer.
    pub fn data(&self) -> (r: &Vec<u8>)
        ensures
            r@ == self@,
    {
        &self.buf
    }

    /// The buffer length in bytes.
    pub fn size(&self) -> (r: usize)
        ensures
            r == self@.len(),
    {
        self.buf.len()
    }

    /// The content length in bytes.
    pub fn content_size(&self) -> (r: usize)
        requires
            self.wf(),
        ensures
            r == self@.len() - 16,
    {
        self.buf.len() - PAGE_HEADER_LEN
    }

    /// The content bytes.
    pub fn content(&self) -> (r: &[u8])
        requires
            self.wf(),
        ensures
            r@ == spec_page_content(self@),
    {
        let r = slice_subrange(self.buf.as_slice(), PAGE_HEADER_LEN, self.buf.len());
        proof {
            assert(r@ =~= spec_page_content(self@));
        }
        r
    }

    /// Overwrites the content bytes, leaving the header alone.
    pub fn write_content(&mut self, bytes: &[u8]) -> (nothing: ())
        requires
            old(self).wf(),
            bytes@.len() == old(self)@.len() - 16,
        ensures
            final(self).wf(),
            final(self)@.len() == old(self)@.len(),
            spec_page_content(final(self)@) == bytes@,
            spec_page_epoch(final(self)@) == spec_page_epoch(old(self)@),
            spec_page_flags(final(self)@) == spec_page_flags(old(self)@),
            spec_page_chain_len(final(self)@) == spec_page_chain_len(old(self)@),
            spec_page_chain_next(final(self)@) == spec_page_chain_next(old(self)@),
    {
        let n = bytes.len();
        let mut i: usize = 0;
        while i < n
            invariant
                i <= n,
                n == bytes@.len(),
                n == old(self)@.len() - 16,
                self@.len() == old(self)@.len(),
                self@.subrange(0, 16) == old(self)@.subrange(0, 16),
                forall|j: int| 0 <= j < i ==> self@[16 + j] == bytes@[j],
            decreases n - i,
        {
            let ghost prev = self@;
            let b = bytes[i];
            proof {
                vstd::std_specs::vec::axiom_spec_len(&self.buf);
            }
            self.buf[16 + i] = b;
            proof {
                assert(self@.subrange(0, 16) =~= prev.subrange(0, 16));
            }
            i += 1;
        }
        proof {
            assert(spec_page_content(self@) =~= bytes@);
            lemma_same_header_fields(old(self)@, self@);
        }
    }

    /// The epoch, masked to 48 bits.
    pub fn epoch(&self) -> (r: u64)
        requires
            self.wf(),
        ensures
            r == spec_page_epoch(self@),
    {
        let b = &self.buf;
        let r = (b[0] as u64) + (b[1] as u64) * 0x100 + (b[2] as u64) * 0x1_0000 + (b[3] as u64)
            * 0x100_0000 + (b[4] as u64) * 0x1_0000_0000 + (b[5] as u64) * 0x100_0000_0000;
        proof {
            assert(self@.subrange(0, 6)[0] == self@[0]);
            assert(self@.subrange(0, 6)[1] == self@[1]);
            assert(self@.subrange(0, 6)[2] == self@[2]);
            assert(self@.subrange(0, 6)[3] == self@[3]);
            assert(self@.subrange(0, 6)[4] == self@[4]);
            assert(self@.subrange(0, 6)[5] == self@[5]);
        }
        r
    }

    /// Writes the epoch; only its low 48 bits are stored.
    pub fn set_epoch(&mut self, epoch: u64) -> (nothing: ())
        requires
            old(self).wf(),
        ensures
            final(self).wf(),
            final(self)@.len() == old(self)@.len(),
            spec_page_epoch(final(self)@) == epoch % 0x1_0000_0000_0000,
            spec_page_flags(final(self)@) == spec_page_flags(old(self)@),
            spec_page_chain_len(final(self)@) == spec_page_chain_len(old(self)@),
            spec_page_chain_next(final(self)@) == spec_page_chain_next(old(self)@),
            spec_page_content(final(self)@) == spec_page_content(old(self)@),
    {
        let b0 = (epoch % 0x100) as u8;
        let b1 = ((epoch / 0x100) % 0x100) as u8;
        let b2 = ((epoch / 0x1_0000) % 0x100) as u8;
        let b3 = ((epoch / 0x100_0000) % 0x100) as u8;
        let b4 = ((epoch / 0x1_0000_0000) % 0x100) as u8;
        let b5 = ((epoch / 0x100_0000_0000) % 0x100) as u8;
        self.buf[0] = b0;
        self.buf[1] = b1;
        self.buf[2] = b2;
        self.buf[3] = b3;
        self.buf[4] = b4;
        self.buf[5] = b5;
        proof {
            let e = epoch;
            assert((b0 as u64) + (b1 as u64) * 0x100 + (b2 as u64) * 0x1_0000 + (b3 as u64)
                * 0x100_0000 + (b4 as u64) * 0x1_0000_0000 + (b5 as u64) * 0x100_0000_0000 == e
                % 0x1_0000_0000_0000) by (bit_vector)
                requires
                    b0 == e % 0x100,
                    b1 == (e / 0x100) % 0x100,
                    b2 == (e / 0x1_0000) % 0x100,
                    b3 == (e / 0x100_0000) % 0x100,
                    b4 == (e / 0x1_0000_0000) % 0x100,
                    b5 == (e / 0x100_0000_0000) % 0x100,
            ;
            assert(self@.subrange(0, 6) =~= seq![b0, b1, b2, b3, b4, b5]);
            assert(spec_page_epoch(self@) == epoch % 0x1_0000_0000_0000);
            assert(self@.subrange(8, 16) =~= old(self)@.subrange(8, 16));
            assert(spec_page_content(self@) =~= spec_page_content(old(self)@));
        }
    }

    /// The flags byte, wrapped.
    pub fn flags(&self) -> (r: PageFlag)
        requires
            self.wf(),
        ensures
            r@ == spec_page_flags(self@),
    {
        PageFlag::from_bits(self.buf[6])
    }

    /// Writes the flags byte.
    pub fn set_flags(&mut self, flags: PageFlag) -> (nothing: ())
        requires
            old(self).wf(),
        ensures
            final(self).wf(),
            final(self)@.len() == old(self)@.len(),
            spec_page_flags(final(self)@) == flags@,
            spec_page_epoch(final(self)@) == spec_page_epoch(old(self)@),
            spec_page_chain_len(final(self)@) == spec_page_chain_len(old(self)@),
            spec_page_chain_next(final(self)@) == spec_page_chain_next(old(self)@),
            spec_page_content(final(self)@) == spec_page_content(old(self)@),
    {
        self.buf[6] = flags.bits();
        proof {
            assert(self@.subrange(0, 6) =~= old(self)@.subrange(0, 6));
            assert(self@.subrange(8, 16) =~= old(self)@.subrange(8, 16));
            assert(spec_page_content(self@) =~= spec_page_content(old(self)@));
        }
    }

    /// The kind packed in the flags byte.
    pub fn kind(&self) -> (r: PageKind)
        requires
            self.wf(),
            spec_flags_wf(spec_page_flags(self@)),
        ensures
            r == spec_kind_of(spec_page_flags(self@)),
    {
        self.flags().kind()
    }

    /// The tier packed in the flags byte.
    pub fn tier(&self) -> (r: PageTier)
        requires
            self.wf(),
        ensures
            r == spec_tier_of(spec_page_flags(self@)),
    {
        self.flags().tier()
    }

    /// The chain length.
    pub fn chain_len(&self) -> (r: u8)
        requires
            self.wf(),
        ensures
            r == spec_page_chain_len(self@),
    {
        self.buf[7]
    }

    /// Writes the chain length.
    pub fn set_chain_len(&mut self, len: u8) -> (nothing: ())
        requires
            old(self).wf(),
        ensures
            final(self).wf(),
            final(self)@.len() == old(self)@.len(),
            spec_page_chain_len(final(self)@) == len,
            spec_page_epoch(final(self)@) == spec_page_epoch(old(self)@),
            spec_page_flags(final(self)@) == spec_page_flags(old(self)@),
            spec_page_chain_next(final(self)@) == spec_page_chain_next(old(self)@),
            spec_page_content(final(self)@) == spec_page_content(old(self)@),
    {
        self.buf[7] = len;
        proof {
            assert(self@.subrange(0, 6) =~= old(self)@.subrange(0, 6));
            assert(self@.subrange(8, 16) =~= old(self)@.subrange(8, 16));
            assert(spec_page_content(self@) =~= spec_page_content(old(self)@));
        }
    }

    /// The chain-next address; zero means the chain ends here.
    pub fn chain_next(&self) -> (r: u64)
        requires
            self.wf(),
        ensures
            r == spec_page_chain_next(self@),
    {
        let b = &self.buf;
        let r = (b[8] as u64) + (b[9] as u64) * 0x100 + (b[10] as u64) * 0x1_0000 + (b[11] as u64)
            * 0x100_0000 + (b[12] as u64) * 0x1_0000_0000 + (b[13] as u64) * 0x100_0000_0000 + (
        b[14] as u64) * 0x1_0000_0000_0000 + (b[15] as u64) * 0x100_0000_0000_0000;
        proof {
            let s = self@.subrange(8, 16);
            assert(s[0] == self@[8] && s[1] == self@[9] && s[2] == self@[10] && s[3] == self@[11]
                && s[4] == self@[12] && s[5] == self@[13] && s[6] == self@[14] && s[7]
                == self@[15]);
        }
        r
    }

    /// Writes the chain-next address.
    pub fn set_chain_next(&mut self, address: u64) -> (nothing: ())
        requires
            old(self).wf(),
        ensures
            final(self).wf(),
            final(self)@.len() == old(self)@.len(),
            spec_page_chain_next(final(self)@) == address,
            spec_page_epoch(final(self)@) == spec_page_epoch(old(self)@),
            spec_page_flags(final(self)@) == spec_page_flags(old(self)@),
            spec_page_chain_len(final(self)@) == spec_page_chain_len(old(self)@),
            spec_page_content(final(self)@) == spec_page_content(old(self)@),
    {
        let b0 = (address % 0x100) as u8;
        let b1 = ((address / 0x100) % 0x100) as u8;
        let b2 = ((address / 0x1_0000) % 0x100) as u8;
        let b3 = ((address / 0x100_0000) % 0x100) as u8;
        let b4 = ((address / 0x1_0000_0000) % 0x100) as u8;
        let b5 = ((address / 0x100_0000_0000) % 0x100) as u8;
        let b6 = ((address / 0x1_0000_0000_0000) % 0x100) as u8;
        let b7 = (address / 0x100_0000_0000_0000) as u8;
        self.buf[8] = b0;
        self.buf[9] = b1;
        self.buf[10] = b2;
        self.buf[11] = b3;
        self.buf[12] = b4;
        self.buf[13] = b5;
        self.buf[14] = b6;
        self.buf[15] = b7;
        proof {
            let a = address;
            assert((b0 as u64) + (b1 as u64) * 0x100 + (b2 as u64) * 0x1_0000 + (b3 as u64)
                * 0x100_0000 + (b4 as u64) * 0x1_0000_0000 + (b5 as u64) * 0x100_0000_0000 + (
            b6 as u64) * 0x1_0000_0000_0000 + (b7 as u64) * 0x100_0000_0000_0000 == a)
                by (bit_vector)
                requires
                    b0 == a % 0x100,
                    b1 == (a / 0x100) % 0x100,
                    b2 == (a / 0x1_0000) % 0x100,
                    b3 == (a / 0x100_0000) % 0x100,
                    b4 == (a / 0x1_0000_0000) % 0x100,
                    b5 == (a / 0x100_0000_0000) % 0x100,
                    b6 == (a / 0x1_0000_0000_0000) % 0x100,
                    b7 == a / 0x100_0000_0000_0000,
            ;
            assert(self@.subrange(8, 16) =~= seq![b0, b1, b2, b3, b4, b5, b6, b7]);
            assert(self@.subrange(0, 6) =~= old(self)@.subrange(0, 6));
            assert(spec_page_content(self@) =~= spec_page_content(old(self)@));
        }
    }

    /// A compact summary of the header, usable without the buffer.
    pub fn info(&self) -> (r: PageInfo)
        requires
            self.wf(),
        ensures
            r.spec_meta() == spec_page_meta(self@),
            r.spec_next() == spec_page_chain_next(self@),
            r.spec_size() == self@.len(),
    {
        let e = self.epoch();
        let f = self.buf[6];
        let c = self.buf[7];
        proof {
            assert(spec_page_epoch(self@) < 0x1_0000_0000_0000) by {
                let s = self@.subrange(0, 6);
                assert(s[0] < 0x100 && s[1] < 0x100 && s[2] < 0x100 && s[3] < 0x100 && s[4]
                    < 0x100 && s[5] < 0x100);
            }
        }
        let meta = e + (f as u64) * 0x1_0000_0000_0000 + (c as u64) * 0x100_0000_0000_0000;
        PageInfo::from_raw(meta, self.chain_next(), self.buf.len())
    }
}

/// Establishes that two buffers agreeing on their first sixteen bytes hold
/// the same header fields.
proof fn lemma_same_header_fields(s1: Seq<u8>, s2: Seq<u8>)
    requires
        s1.len() >= 16,
        s2.len() >= 16,
        s1.subrange(0, 16) == s2.subrange(0, 16),
    ensures
        spec_page_epoch(s1) == spec_page_epoch(s2),
        spec_page_flags(s1) == spec_page_flags(s2),
        spec_page_chain_len(s1) == spec_page_chain_len(s2),
        spec_page_chain_next(s1) == spec_page_chain_next(s2),
{
    let h1 = s1.subrange(0, 16);
    let h2 = s2.subrange(0, 16);
    assert(s1.subrange(0, 6) =~= h1.subrange(0, 6));
    assert(s2.subrange(0, 6) =~= h2.subrange(0, 6));
    assert(s1.subrange(8, 16) =~= h1.subrange(8, 16));
    assert(s2.subrange(8, 16) =~= h2.subrange(8, 16));
    assert(s1[6] == h1[6] && s2[6] == h2[6] && s1[7] == h1[7] && s2[7] == h2[7]);
}

/// An exclusive view of a page buffer, used while building or mutating.
#[derive(Debug)]
pub struct PageMut {
    ptr: PagePtr,
}

impl View for PageMut {
    type V = Seq<u8>;

    closed spec fn view(&self) -> Seq<u8> {
        self.ptr@
    }
}

impl PageMut {
    pub open spec fn wf(&self) -> bool {
        self@.len() >= 16
    }

    /// Takes ownership of a buffer that is at least header-sized.
    pub fn new(buf: Vec<u8>) -> (r: Self)
        requires
            buf@.len() >= 16,
        ensures
            r.wf(),
            r@ == buf@,
    {
        PageMut { ptr: PagePtr::new(buf) }
    }

    /// The underlying page, shared.
    pub fn as_page(&self) -> (r: &PagePtr)
        ensures
            r@ == self@,
    {
        &self.ptr
    }

    /// Gives the buffer back.
    pub fn into_buf(self) -> (r: Vec<u8>)
        ensures
            r@ == self@,
    {
        self.ptr.into_buf()
    }

    /// Writes the flags byte.
    pub fn set_flags(&mut self, flags: PageFlag) -> (nothing: ())
        requires
            old(self).wf(),
        ensures
            final(self).wf(),
            final(self)@.len() == old(self)@.len(),
            spec_page_flags(final(self)@) == flags@,
            spec_page_epoch(final(self)@) == spec_page_epoch(old(self)@),
            spec_page_chain_len(final(self)@) == spec_page_chain_len(old(self)@),
            spec_page_chain_next(final(self)@) == spec_page_chain_next(old(self)@),
            spec_page_content(final(self)@) == spec_page_content(old(self)@),
    {
        self.ptr.set_flags(flags)
    }

    /// Writes the epoch; only its low 48 bits are stored.
    pub fn set_epoch(&mut self, epoch: u64) -> (nothing: ())
        requires
            old(self).wf(),
        ensures
            final(self).wf(),
            final(self)@.len() == old(self)@.len(),
            spec_page_epoch(final(self)@) == epoch % 0x1_0000_0000_0000,
            spec_page_flags(final(self)@) == spec_page_flags(old(self)@),
            spec_page_chain_len(final(self)@) == spec_page_chain_len(old(self)@),
            spec_page_chain_next(final(self)@) == spec_page_chain_next(old(self)@),
            spec_page_content(final(self)@) == spec_page_content(old(self)@),
    {
        self.ptr.set_epoch(epoch)
    }

    /// Writes the chain length.
    pub fn set_chain_len(&mut self, len: u8) -> (nothing: ())
        requires
            old(self).wf(),
        ensures
            final(self).wf(),
            final(self)@.len() == old(self)@.len(),
            spec_page_chain_len(final(self)@) == len,
            spec_page_epoch(final(self)@) == spec_page_epoch(old(self)@),
            spec_page_flags(final(self)@) == spec_page_flags(old(self)@),
            spec_page_chain_next(final(self)@) == spec_page_chain_next(old(self)@),
            spec_page_content(final(self)@) == spec_page_content(old(self)@),
    {
        self.ptr.set_chain_len(len)
    }

    /// Writes the chain-next address.
    pub fn set_chain_next(&mut self, address: u64) -> (nothing: ())
        requires
            old(self).wf(),
        ensures
            final(self).wf(),
            final(self)@.len() == old(self)@.len(),
            spec_page_chain_next(final(self)@) == address,
            spec_page_epoch(final(self)@) == spec_page_epoch(old(self)@),
            spec_page_flags(final(self)@) == spec_page_flags(old(self)@),
            spec_page_chain_len(final(self)@) == spec_page_chain_len(old(self)@),
            spec_page_content(final(self)@) == spec_page_content(old(self)@),
    {
        self.ptr.set_chain_next(address)
    }

    /// Overwrites the content bytes, leaving the header alone.
    pub fn write_content(&mut self, bytes: &[u8]) -> (nothing: ())
        requires
            old(self).wf(),
            bytes@.len() == old(self)@.len() - 16,
        ensures
            final(self).wf(),
            final(self)@.len() == old(self)@.len(),
            spec_page_content(final(self)@) == bytes@,
            spec_page_epoch(final(self)@) == spec_page_epoch(old(self)@),
            spec_page_flags(final(self)@) == spec_page_flags(old(self)@),
            spec_page_chain_len(final(self)@) == spec_page_chain_len(old(self)@),
            spec_page_chain_next(final(self)@) == spec_page_chain_next(old(self)@),
    {
        self.ptr.write_content(bytes)
    }
}

/// A shared, read-only view of a page buffer.
#[derive(Debug)]
pub struct PageRef {
    ptr: PagePtr,
}

impl View for PageRef {
    type V = Seq<u8>;

    closed spec fn view(&self) -> Seq<u8> {
        self.ptr@
    }
}

impl PageRef {
    pub open spec fn wf(&self) -> bool {
        self@.len() >= 16
    }

    /// Takes ownership of a buffer that is at least header-sized.
    pub fn new(buf: Vec<u8>) -> (r: Self)
        requires
            buf@.len() >= 16,
        ensures
            r.wf(),
            r@ == buf@,
    {
        PageRef { ptr: PagePtr::new(buf) }
    }

    /// The underlying page.
    pub fn as_page(&self) -> (r: &PagePtr)
        ensures
            r@ == self@,
    {
        &self.ptr
    }

    /// Gives the buffer back.
    pub fn into_buf(self) -> (r: Vec<u8>)
        ensures
            r@ == self@,
    {
        self.ptr.into_buf()
    }
}

impl From<PageMut> for PageRef {
    /// Freezes an exclusive view into a shared one.
    fn from(page: PageMut) -> (r: PageRef)
        ensures
            r@ == page@,
    {
        PageRef { ptr: page.ptr }
    }
}

impl vstd::std_specs::convert::FromSpecImpl<PageMut> for PageRef {
    open spec fn obeys_from_spec() -> bool {
        true
    }

    closed spec fn from_spec(page: PageMut) -> PageRef {
        PageRef { ptr: page.ptr }
    }
}

/// Builds the only valid initial header: the given kind and tier, epoch
/// zero, chain length one, no chain-next.
#[derive(Debug)]
pub struct PageBuild {
    kind: PageKind,
    tier: PageTier,
}

impl PageBuild {
    /// Remembers the kind and tier to stamp on pages.
    pub fn new(kind: PageKind, tier: PageTier) -> (r: Self)
        ensures
            r.spec_kind() == kind,
            r.spec_tier() == tier,
    {
        PageBuild { kind, tier }
    }

    pub closed spec fn spec_kind(&self) -> PageKind {
        self.kind
    }

    pub closed spec fn spec_tier(&self) -> PageTier {
        self.tier
    }

    /// Writes the default header values into a page, leaving content alone.
    pub fn build(&self, page: &mut PageMut) -> (nothing: ())
        requires
            old(page).wf(),
        ensures
            final(page).wf(),
            final(page)@.len() == old(page)@.len(),
            spec_page_epoch(final(page)@) == 0,
            spec_flags_wf(spec_page_flags(final(page)@)),
            spec_kind_of(spec_page_flags(final(page)@)) == self.spec_kind(),
            spec_tier_of(spec_page_flags(final(page)@)) == self.spec_tier(),
            spec_page_chain_len(final(page)@) == 1,
            spec_page_chain_next(final(page)@) == 0,
            spec_page_content(final(page)@) == spec_page_content(old(page)@),
    {
        let flags = PageFlag::new(self.kind, self.tier);
        page.set_flags(flags);
        page.set_epoch(0);
        page.set_chain_len(1);
        page.set_chain_next(0);
    }
}

/// A compact summary of a page header: the packed meta word, the chain-next
/// address, and the buffer size. Derived from a page, never independently
/// mutated.
#[derive(Copy, Clone, Debug)]
pub struct PageInfo {
    meta: u64,
    next: u64,
    size: usize,
}

impl PageInfo {
    pub closed spec fn spec_meta(&self) -> u64 {
        self.meta
    }

    pub closed spec fn spec_next(&self) -> u64 {
        self.next
    }

    pub closed spec fn spec_size(&self) -> usize {
        self.size
    }

    /// Wraps the raw summary words.
    pub fn from_raw(meta: u64, next: u64, size: usize) -> (r: Self)
        ensures
            r.spec_meta() == meta,
            r.spec_next() == next,
            r.spec_size() == size,
    {
        PageInfo { meta, next, size }
    }

    /// The epoch packed in the meta word.
    pub fn epoch(&self) -> (r: u64)
        ensures
            r == self.spec_meta() % 0x1_0000_0000_0000,
    {
        let m = self.meta;
        proof {
            assert(m & 0xFFFF_FFFF_FFFF == m % 0x1_0000_0000_0000) by (bit_vector);
        }
        m & PAGE_EPOCH_MAX
    }

    /// The flags byte packed in the meta word.
    pub fn flags(&self) -> (r: PageFlag)
        ensures
            r@ == (self.spec_meta() / 0x1_0000_0000_0000) % 0x100,
    {
        let m = self.meta;
        proof {
            assert((m >> 48) as u8 == (m / 0x1_0000_0000_0000) % 0x100) by (bit_vector);
        }
        PageFlag::from_bits((m >> 48) as u8)
    }

    /// The kind packed in the meta word.
    pub fn kind(&self) -> (r: PageKind)
        requires
            spec_flags_wf(((self.spec_meta() / 0x1_0000_0000_0000) % 0x100) as u8),
        ensures
            r == spec_kind_of(((self.spec_meta() / 0x1_0000_0000_0000) % 0x100) as u8),
    {
        self.flags().kind()
    }

    /// The tier packed in the meta word.
    pub fn tier(&self) -> (r: PageTier)
        ensures
            r == spec_tier_of(((self.spec_meta() / 0x1_0000_0000_0000) % 0x100) as u8),
    {
        self.flags().tier()
    }

    /// The chain length packed in the meta word.
    pub fn chain_len(&self) -> (r: u8)
        ensures
            r == self.spec_meta() / 0x100_0000_0000_0000,
    {
        let m = self.meta;
        proof {
            assert((m >> 56) as u8 == m / 0x100_0000_0000_0000) by (bit_vector);
        }
        (m >> 56) as u8
    }

    /// The chain-next address.
    pub fn chain_next(&self) -> (r: u64)
        ensures
            r == self.spec_next(),
    {
        self.next
    }

    /// The page buffer size.
    pub fn size(&self) -> (r: usize)
        ensures
            r == self.spec_size(),
    {
        self.size
    }

    /// The raw meta and chain-next words.
    pub fn value(&self) -> (r: (u64, u64))
        ensures
            r.0 == self.spec_meta(),
            r.1 == self.spec_next(),
    {
        (self.meta, self.next)
    }
}

/// The meta word packs the epoch in its low 48 bits, the flags byte above
/// them, and the chain length in the top byte.
pub proof fn lemma_page_meta_fields(s: Seq<u8>)
    requires
        s.len() >= 16,
    ensures
        spec_page_meta(s) % 0x1_0000_0000_0000 == spec_page_epoch(s),
        (spec_page_meta(s) / 0x1_0000_0000_0000) % 0x100 == spec_page_flags(s),
        spec_page_meta(s) / 0x100_0000_0000_0000 == spec_page_chain_len(s),
{
    let e = spec_page_epoch(s);
    let f = spec_page_flags(s);
    let c = spec_page_chain_len(s);
    let m = spec_page_meta(s);
    assert(e < 0x1_0000_0000_0000) by {
        let t = s.subrange(0, 6);
        assert(t[0] < 0x100 && t[1] < 0x100 && t[2] < 0x100 && t[3] < 0x100 && t[4] < 0x100
            && t[5] < 0x100);
    }
    assert(m == (e + f * 0x1_0000_0000_0000 + c * 0x100_0000_0000_0000) as u64);
    assert((e + (f as u64) * 0x1_0000_0000_0000 + (c as u64) * 0x100_0000_0000_0000) % 0x1_0000_0000_0000
        == e && ((e + (f as u64) * 0x1_0000_0000_0000 + (c as u64) * 0x100_0000_0000_0000)
        / 0x1_0000_0000_0000) % 0x100 == f && (e + (f as u64) * 0x1_0000_0000_0000 + (c as u64)
        * 0x100_0000_0000_0000) / 0x100_0000_0000_0000 == c) by (bit_vector)
        requires
            e < 0x1_0000_0000_0000u64,
    ;
}

} // verus!
