//! The description of the point records and of the chunks they are grouped into.

use vstd::prelude::*;

verus! {

/// Number of points per chunk when nothing else was asked for.
pub const DEFAULT_CHUNK_SIZE: u32 = 50_000;

/// The chunk size that stands for "each chunk has a size of its own".
pub const VARIABLE_CHUNK_SIZE: u32 = 4_294_967_295;

/// The kinds of items that make up a point record.
#[derive(Clone, Copy, Debug, PartialEq, Eq, Structural)]
pub enum LazItemType {
    /// Extra bytes of the legacy point formats, with their number.
    Byte(u16),
    /// The core of the legacy point formats.
    Point10,
    /// The GPS time of the legacy point formats.
    GpsTime,
    /// The colour of the legacy point formats.
    RGB12,
    /// The wave packet of the legacy point formats.
    WavePacket13,
    /// The core of the extended point formats.
    Point14,
    /// The colour of the extended point formats.
    RGB14,
    /// The colour and near infrared of the extended point formats.
    RGBNIR14,
    /// The wave packet of the extended point formats.
    WavePacket14,
    /// Extra bytes of the extended point formats, with their number.
    Byte14(u16),
}

impl LazItemType {
    /// Number of bytes of the item in an uncompressed point.
    pub open spec fn spec_size(self) -> u16 {
        match self {
            LazItemType::Byte(n) => n,
            LazItemType::Point10 => 20,
            LazItemType::GpsTime => 8,
            LazItemType::RGB12 => 6,
            LazItemType::WavePacket13 => 29,
            LazItemType::Point14 => 30,
            LazItemType::RGB14 => 6,
            LazItemType::RGBNIR14 => 8,
            LazItemType::WavePacket14 => 29,
            LazItemType::Byte14(n) => n,
        }
    }

    /// Number of bytes of the item in an uncompressed point.
    pub fn size(&self) -> (size: u16)
        ensures
            size == self.spec_size(),
    {
        match *self {
            LazItemType::Byte(n) => n,
            LazItemType::Point10 => 20,
            LazItemType::GpsTime => 8,
            LazItemType::RGB12 => 6,
            LazItemType::WavePacket13 => 29,
            LazItemType::Point14 => 30,
            LazItemType::RGB14 => 6,
            LazItemType::RGBNIR14 => 8,
            LazItemType::WavePacket14 => 29,
            LazItemType::Byte14(n) => n,
        }
    }
}

/// One item of a point record.
#[derive(Clone, Copy, Debug, PartialEq, Eq, Structural)]
pub struct LazItem {
    pub item_type: LazItemType,
}

/// Builds the items of a point record one after the other.
pub struct LazItemRecordBuilder {
    items: Vec<LazItem>,
}

impl View for LazItemRecordBuilder {
    type V = Seq<LazItem>;

    closed spec fn view(&self) -> Seq<LazItem> {
        self.items@
    }
}

impl LazItemRecordBuilder {
    /// A builder without items.
    pub fn new() -> (builder: LazItemRecordBuilder)
        ensures
            builder@ == Seq::<LazItem>::empty(),
    {
        LazItemRecordBuilder { items: Vec::new() }
    }

    /// Appends an item.
    pub fn add_item(&mut self, item_type: LazItemType) -> (builder: &mut LazItemRecordBuilder)
        ensures
            builder@ == old(self)@.push(LazItem { item_type }),
            *final(self) == *final(builder),
    {
        self.items.push(LazItem { item_type });
        self
    }

    /// The items so far.
    pub fn build(&self) -> (items: Vec<LazItem>)
        ensures
            items@ == self@,
    {
        let mut items: Vec<LazItem> = Vec::new();
        let mut i: usize = 0;
        while i < self.items.len()
            invariant
                i <= self.items@.len(),
                items@ == self.items@.take(i as int),
            decreases self.items@.len() - i,
        {
            items.push(self.items[i]);
            i = i + 1;
        }
        assert(self.items@.take(i as int) =~= self.items@);
        items
    }
}

/// The number of bytes that `items` take in an uncompressed point.
pub open spec fn total_size(items: Seq<LazItem>) -> nat
    decreases items.len(),
{
    if items.len() == 0 {
        0
    } else {
        total_size(items.drop_last()) + items.last().item_type.spec_size() as nat
    }
}

/// The prefix of a record is no longer than the record.
proof fn lemma_total_size_prefix(items: Seq<LazItem>, n: int)
    requires
        0 <= n <= items.len(),
    ensures
        total_size(items.take(n)) <= total_size(items),
    decreases items.len() - n,
{
    if n < items.len() {
        lemma_total_size_prefix(items, n + 1);
        assert(items.take(n + 1).drop_last() =~= items.take(n));
    } else {
        assert(items.take(n) =~= items);
    }
}

/// What a `LazVlr` describes.
pub struct VlrView {
    /// The items of a point record.
    pub items: Seq<LazItem>,
    /// The number of points per chunk.
    pub chunk_size: u32,
}

impl VlrView {
    /// Bytes per uncompressed point.
    pub open spec fn point_size(self) -> nat {
        total_size(self.items)
    }

    /// Whether each chunk has a size of its own.
    pub open spec fn variable(self) -> bool {
        self.chunk_size == VARIABLE_CHUNK_SIZE
    }

    /// Bytes of the points of one full chunk.
    pub open spec fn chunk_bytes(self) -> nat {
        self.chunk_size as nat * self.point_size()
    }

    /// The points of a chunk can be counted from its size in bytes, where that is how they are
    /// counted.
    pub open spec fn countable(self) -> bool {
        self.variable() ==> 0 < self.point_size()
    }

    /// Points have at least one byte, chunks at least one point, and the sizes in bytes can be
    /// counted in memory.
    pub open spec fn valid(self) -> bool {
        &&& 0 < self.point_size() <= usize::MAX
        &&& 0 < self.chunk_size
        &&& !self.variable() ==> self.chunk_bytes() <= usize::MAX
    }
}

/// The description of the point records and of the chunks that are written.
pub struct LazVlr {
    items: Vec<LazItem>,
    chunk_size: u32,
}

impl View for LazVlr {
    type V = VlrView;

    closed spec fn view(&self) -> VlrView {
        VlrView { items: self.items@, chunk_size: self.chunk_size }
    }
}

impl LazVlr {
    /// A description with the given items and number of points per chunk.
    pub fn new(items: Vec<LazItem>, chunk_size: u32) -> (vlr: LazVlr)
        ensures
            vlr@ == (VlrView { items: items@, chunk_size }),
    {
        LazVlr { items, chunk_size }
    }

    /// A description with the given items and chunks of `DEFAULT_CHUNK_SIZE` points.
    pub fn from_laz_items(items: Vec<LazItem>) -> (vlr: LazVlr)
        ensures
            vlr@ == (VlrView { items: items@, chunk_size: DEFAULT_CHUNK_SIZE }),
    {
        LazVlr::new(items, DEFAULT_CHUNK_SIZE)
    }

    /// The items of a point record.
    pub fn items(&self) -> (items: &[LazItem])
        ensures
            items@ == self@.items,
    {
        self.items.as_slice()
    }

    /// The number of points per chunk.
    pub fn chunk_size(&self) -> (chunk_size: u32)
        ensures
            chunk_size == self@.chunk_size,
    {
        self.chunk_size
    }

    /// Whether each chunk has a size of its own.
    pub fn uses_variable_size_chunks(&self) -> (b: bool)
        ensures
            b == self@.variable(),
    {
        self.chunk_size == VARIABLE_CHUNK_SIZE
    }

    /// The number of bytes of an uncompressed point.
    pub fn items_size(&self) -> (size: u64)
        requires
            self@.point_size() <= u64::MAX,
        ensures
            size == self@.point_size(),
    {
        let mut size: u64 = 0;
        let mut i: usize = 0;
        while i < self.items.len()
            invariant
                i <= self.items@.len(),
                size == total_size(self.items@.take(i as int)),
                total_size(self.items@) <= u64::MAX,
            decreases self.items@.len() - i,
        {
            proof {
                lemma_total_size_prefix(self.items@, i + 1);
                assert(self.items@.take(i + 1).drop_last() =~= self.items@.take(i as int));
            }
            size = size + self.items[i].item_type.size() as u64;
            i = i + 1;
        }
        assert(self.items@.take(i as int) =~= self.items@);
        size
    }

    /// The number of bytes of the points of one full chunk.
    pub fn num_bytes_in_decompressed_chunk(&self) -> (n: u64)
        requires
            self@.point_size() <= u64::MAX,
            self@.chunk_bytes() <= u64::MAX,
        ensures
            n == self@.chunk_bytes(),
    {
        let points: u64 = self.chunk_size as u64;
        points * self.items_size()
    }
}

} // verus!
