//! Marker segments of a JFIF file: their data model and how they are read
//! from bytes.

use crate::canonical::{
    built, first_code, first_index, lemma_first_code_bound, lemma_first_index_monotonic,
    lemma_length_of, total,
};
use crate::huffman::{lemma_codeword_low_bits, lemma_pow2_monotonic, Tree, Trie};
use vstd::arithmetic::power2::lemma2_to64;
use vstd::prelude::*;
use vstd::slice::{slice_subrange, slice_to_vec};
use vstd::utf8::{decode_utf8, valid_utf8};

verus! {

/// Why a byte buffer could not be read as a set of headers.
#[derive(Clone, Copy, Debug, PartialEq, Eq)]
pub enum ParseError {
    /// A segment is longer than the bytes that are left, or too short for
    /// what it has to hold.
    TruncatedSegment,
    /// A byte that selects among named alternatives holds none of them.
    UnsupportedValue,
    /// The scan starts before any frame header.
    MissingFrameHeader,
}

/// Unit of the pixel density of a JFIF header.
#[derive(Clone, Copy, Debug, PartialEq, Eq)]
pub enum DensityUnit {
    NoUnit,
    PixelsPerInch,
    PixelsPerCm,
}

/// The slot that a table is meant for.
#[derive(Clone, Copy, Debug, PartialEq, Eq)]
pub enum Destination {
    Luminance,
    Chrominance,
}

/// A colour component.
#[derive(Clone, Copy, Debug, PartialEq, Eq)]
pub enum ComponentId {
    LumY,
    ChromCb,
    ChromCr,
}

/// The kind of coefficient that a Huffman table codes.
#[derive(Clone, Copy, Debug, PartialEq, Eq)]
pub enum Class {
    AC,
    DC,
}

/// The number that two bytes hold, the high byte first.
pub open spec fn be16(high: u8, low: u8) -> int {
    high as int * 256 + low as int
}

/// The density unit that `code` selects.
pub open spec fn density_unit_of(code: u8) -> Option<DensityUnit> {
    if code == 0 {
        Some(DensityUnit::NoUnit)
    } else if code == 1 {
        Some(DensityUnit::PixelsPerInch)
    } else if code == 2 {
        Some(DensityUnit::PixelsPerCm)
    } else {
        None
    }
}

/// The table slot that `code` selects.
pub open spec fn destination_of(code: u8) -> Option<Destination> {
    if code == 0 {
        Some(Destination::Luminance)
    } else if code == 1 {
        Some(Destination::Chrominance)
    } else {
        None
    }
}

/// The coefficient class that `code` selects.
pub open spec fn class_of(code: u8) -> Option<Class> {
    if code == 0 {
        Some(Class::DC)
    } else if code == 1 {
        Some(Class::AC)
    } else {
        None
    }
}

/// The colour component that `code` selects.
pub open spec fn component_id_of(code: u8) -> Option<ComponentId> {
    if code == 1 {
        Some(ComponentId::LumY)
    } else if code == 2 {
        Some(ComponentId::ChromCb)
    } else if code == 3 {
        Some(ComponentId::ChromCr)
    } else {
        None
    }
}

/// A segment that was read holds `content`, or reading failed as `content`
/// says.
pub open spec fn holds<T: View>(
    segment: Result<T, ParseError>,
    content: Result<T::V, ParseError>,
) -> bool {
    match (segment, content) {
        (Ok(s), Ok(c)) => s@ == c,
        (Err(e), Err(f)) => e == f,
        _ => false,
    }
}

/// The upper four bits of a byte.
fn high_nibble(byte: u8) -> (nibble: u8)
    ensures
        nibble == byte / 16,
{
    assert(byte >> 4 == byte / 16) by (bit_vector);
    byte >> 4
}

/// The lower four bits of a byte.
fn low_nibble(byte: u8) -> (nibble: u8)
    ensures
        nibble == byte % 16,
{
    assert(byte & 0x0F == byte % 16) by (bit_vector);
    byte & 0x0F
}

fn read_destination(code: u8) -> (slot: Result<Destination, ParseError>)
    ensures
        match destination_of(code) {
            Some(d) => slot == Ok::<Destination, ParseError>(d),
            None => slot == Err::<Destination, ParseError>(ParseError::UnsupportedValue),
        },
{
    if code == 0 {
        Ok(Destination::Luminance)
    } else if code == 1 {
        Ok(Destination::Chrominance)
    } else {
        Err(ParseError::UnsupportedValue)
    }
}

/// The number that two bytes hold, the high byte first.
fn from_be_bytes(high: u8, low: u8) -> (value: u16)
    ensures
        value == be16(high, low),
{
    high as u16 * 256 + low as u16
}

/// The length that the first two bytes of a segment announce.
fn get_lenght(bytes: &[u8]) -> (length: usize)
    requires
        bytes@.len() >= 2,
    ensures
        length == be16(bytes@[0], bytes@[1]),
{
    from_be_bytes(bytes[0], bytes[1]) as usize
}

/// `String::from_utf8` of std: the text that `bytes` encode, where they are
/// valid UTF-8, and nothing where they are not.
#[verifier::external_body]
fn string_from_utf8(bytes: Vec<u8>) -> (text: Option<String>)
    ensures
        text.is_some() == valid_utf8(bytes@),
        text matches Some(s) ==> s@ == decode_utf8(bytes@),
{
    String::from_utf8(bytes).ok()
}

/// Content of a JFIF application segment.
pub struct AppInfo {
    pub identifier: Seq<char>,
    pub version: (u8, u8),
    pub density_unit: DensityUnit,
    pub density: (u16, u16),
    pub thumbnail_size: (u8, u8),
    pub thumbnail: Seq<u8>,
}

impl AppInfo {
    /// What a payload holds as a JFIF application segment: five bytes of
    /// identifier, the version, the density unit and pair, the size of the
    /// thumbnail, and the thumbnail, which is every byte that follows if both
    /// of its sizes are non-zero.
    pub open spec fn read(payload: Seq<u8>) -> Result<AppInfo, ParseError> {
        if payload.len() < 14 {
            Err(ParseError::TruncatedSegment)
        } else if !valid_utf8(payload.subrange(0, 5)) {
            Err(ParseError::UnsupportedValue)
        } else {
            match density_unit_of(payload[7]) {
                None => Err(ParseError::UnsupportedValue),
                Some(unit) => Ok(
                    AppInfo {
                        identifier: decode_utf8(payload.subrange(0, 5)),
                        version: (payload[5], payload[6]),
                        density_unit: unit,
                        density: (
                            be16(payload[8], payload[9]) as u16,
                            be16(payload[10], payload[11]) as u16,
                        ),
                        thumbnail_size: (payload[12], payload[13]),
                        thumbnail: if payload[12] != 0 && payload[13] != 0 {
                            payload.subrange(14, payload.len() as int)
                        } else {
                            Seq::empty()
                        },
                    },
                ),
            }
        }
    }
}

/// A JFIF application segment.
#[derive(Debug)]
pub struct Application0<'a> {
    pub identifier: String,
    pub version: (u8, u8),
    pub density_unit: DensityUnit,
    pub density: (u16, u16),
    pub thumbnail_size: (u8, u8),
    pub thumbnail: &'a [u8],
}

impl<'a> View for Application0<'a> {
    type V = AppInfo;

    open spec fn view(&self) -> AppInfo {
        AppInfo {
            identifier: self.identifier@,
            version: self.version,
            density_unit: self.density_unit,
            density: self.density,
            thumbnail_size: self.thumbnail_size,
            thumbnail: self.thumbnail@,
        }
    }
}

impl<'a> Application0<'a> {
    /// Reads the payload of an application segment.
    pub fn new(bytes: &'a [u8]) -> (segment: Result<Application0<'a>, ParseError>)
        ensures
            holds(segment, AppInfo::read(bytes@)),
    {
        if bytes.len() < 14 {
            return Err(ParseError::TruncatedSegment);
        }
        let identifier = match string_from_utf8(slice_to_vec(slice_subrange(bytes, 0, 5))) {
            None => {
                return Err(ParseError::UnsupportedValue);
            },
            Some(text) => text,
        };
        let density_unit = match bytes[7] {
            0 => DensityUnit::NoUnit,
            1 => DensityUnit::PixelsPerInch,
            2 => DensityUnit::PixelsPerCm,
            _ => {
                return Err(ParseError::UnsupportedValue);
            },
        };
        let thumbnail = if bytes[12] != 0 && bytes[13] != 0 {
            slice_subrange(bytes, 14, bytes.len())
        } else {
            slice_subrange(bytes, 0, 0)
        };
        let segment = Application0 {
            identifier,
            version: (bytes[5], bytes[6]),
            density_unit,
            density: (from_be_bytes(bytes[8], bytes[9]), from_be_bytes(bytes[10], bytes[11])),
            thumbnail_size: (bytes[12], bytes[13]),
            thumbnail,
        };
        proof {
            assert(segment@.thumbnail =~= AppInfo::read(bytes@).unwrap().thumbnail);
        }
        Ok(segment)
    }
}

/// Content of a quantization table segment.
pub struct QuantizationDef {
    pub destination: Destination,
    /// The 64 divisors in the order of the file, which is zigzag order.
    pub table: Seq<u8>,
}

impl QuantizationDef {
    /// What a payload holds as a quantization table: a byte whose lower
    /// half selects the slot, then 64 divisors.
    pub open spec fn read(payload: Seq<u8>) -> Result<QuantizationDef, ParseError> {
        if payload.len() < 65 {
            Err(ParseError::TruncatedSegment)
        } else {
            match destination_of(payload[0] % 16) {
                None => Err(ParseError::UnsupportedValue),
                Some(destination) => Ok(
                    QuantizationDef { destination, table: payload.subrange(1, 65) },
                ),
            }
        }
    }
}

/// A quantization table.
#[derive(Debug)]
pub struct QuantizationTable {
    pub destination: Destination,
    pub table: [u8; 64],
}

impl View for QuantizationTable {
    type V = QuantizationDef;

    open spec fn view(&self) -> QuantizationDef {
        QuantizationDef { destination: self.destination, table: self.table@ }
    }
}

impl QuantizationTable {
    /// Reads the payload of a quantization table segment.
    pub fn new(bytes: &[u8]) -> (segment: Result<QuantizationTable, ParseError>)
        ensures
            holds(segment, QuantizationDef::read(bytes@)),
    {
        if bytes.len() < 65 {
            return Err(ParseError::TruncatedSegment);
        }
        let destination = match read_destination(low_nibble(bytes[0])) {
            Err(e) => {
                return Err(e);
            },
            Ok(d) => d,
        };
        let mut table: [u8; 64] = [0;64];
        let mut k: usize = 0;
        while k < 64
            invariant
                k <= 64,
                bytes@.len() >= 65,
                forall|j: int| 0 <= j < k ==> table@[j] == bytes@[j + 1],
            decreases 64 - k,
        {
            table[k] = bytes[k + 1];
            k = k + 1;
        }
        let segment = QuantizationTable { destination, table };
        proof {
            assert(segment@.table =~= bytes@.subrange(1, 65));
        }
        Ok(segment)
    }
}

/// A component as the frame header describes it.
#[derive(Clone, Copy, Debug)]
pub struct ComponentSOF {
    pub id: ComponentId,
    /// Horizontal and vertical sampling factor.
    pub factors: (u8, u8),
    pub quantization_table: u8,
}

/// Content of a frame header.
pub struct FrameHeader {
    pub precision: u8,
    pub height: u16,
    pub width: u16,
    pub components: Seq<ComponentSOF>,
}

impl FrameHeader {
    /// The component that the three bytes at `at` describe.
    pub open spec fn component(payload: Seq<u8>, at: int) -> Option<ComponentSOF> {
        match component_id_of(payload[at]) {
            None => None,
            Some(id) => Some(
                ComponentSOF {
                    id,
                    factors: (payload[at + 1] / 16, payload[at + 1] % 16),
                    quantization_table: payload[at + 2],
                },
            ),
        }
    }

    /// The first `count` components of a payload, or `None` if one of them
    /// names no colour component.
    pub open spec fn components(payload: Seq<u8>, count: nat) -> Option<Seq<ComponentSOF>>
        decreases count,
    {
        if count == 0 {
            Some(Seq::empty())
        } else {
            match (
                FrameHeader::components(payload, (count - 1) as nat),
                FrameHeader::component(payload, 6 + 3 * (count - 1)),
            ) {
                (Some(before), Some(last)) => Some(before.push(last)),
                _ => None,
            }
        }
    }

    /// What a payload holds as a frame header: precision, height, width,
    /// the number of components, and three bytes for each of them.
    pub open spec fn read(payload: Seq<u8>) -> Result<FrameHeader, ParseError> {
        if payload.len() < 6 || payload.len() < 6 + 3 * payload[5] {
            Err(ParseError::TruncatedSegment)
        } else {
            match FrameHeader::components(payload, payload[5] as nat) {
                None => Err(ParseError::UnsupportedValue),
                Some(components) => Ok(
                    FrameHeader {
                        precision: payload[0],
                        height: be16(payload[1], payload[2]) as u16,
                        width: be16(payload[3], payload[4]) as u16,
                        components,
                    },
                ),
            }
        }
    }
}

/// A frame header. The order of its components is the order in which the
/// components are counted everywhere else.
#[derive(Debug)]
pub struct StartOfFrame {
    pub precision: u8,
    pub height: u16,
    pub width: u16,
    pub components: Vec<ComponentSOF>,
}

impl View for StartOfFrame {
    type V = FrameHeader;

    open spec fn view(&self) -> FrameHeader {
        FrameHeader {
            precision: self.precision,
            height: self.height,
            width: self.width,
            components: self.components@,
        }
    }
}

impl StartOfFrame {
    /// Reads the payload of a frame header segment.
    pub fn new(bytes: &[u8]) -> (segment: Result<StartOfFrame, ParseError>)
        ensures
            holds(segment, FrameHeader::read(bytes@)),
    {
        if bytes.len() < 6 {
            return Err(ParseError::TruncatedSegment);
        }
        let count = bytes[5] as usize;
        if bytes.len() < 6 + 3 * count {
            return Err(ParseError::TruncatedSegment);
        }
        let mut components: Vec<ComponentSOF> = Vec::new();
        let mut i: usize = 0;
        while i < count
            invariant
                i <= count == bytes@[5],
                bytes@.len() >= 6 + 3 * count,
                FrameHeader::components(bytes@, i as nat) == Some(components@),
            decreases count - i,
        {
            let id = match bytes[6 + i * 3] {
                1 => ComponentId::LumY,
                2 => ComponentId::ChromCb,
                3 => ComponentId::ChromCr,
                _ => {
                    proof {
                        lemma_components_fail(bytes@, (i + 1) as nat, count as nat);
                    }
                    return Err(ParseError::UnsupportedValue);
                },
            };
            let factors = bytes[7 + i * 3];
            components.push(
                ComponentSOF {
                    id,
                    factors: (high_nibble(factors), low_nibble(factors)),
                    quantization_table: bytes[8 + i * 3],
                },
            );
            i = i + 1;
        }
        Ok(
            StartOfFrame {
                precision: bytes[0],
                height: from_be_bytes(bytes[1], bytes[2]),
                width: from_be_bytes(bytes[3], bytes[4]),
                components,
            },
        )
    }
}

/// A list of components that fails at some length fails at every greater one.
proof fn lemma_components_fail(payload: Seq<u8>, k: nat, n: nat)
    requires
        k <= n,
        FrameHeader::components(payload, k).is_none(),
    ensures
        FrameHeader::components(payload, n).is_none(),
    decreases n,
{
    if k < n {
        lemma_components_fail(payload, k, (n - 1) as nat);
    }
}

/// Content of a Huffman table segment.
pub struct HuffmanDef {
    pub class: Class,
    pub destination: Destination,
    pub tree: Trie,
}

impl HuffmanDef {
    /// What a payload holds as a Huffman table: a byte whose upper half
    /// selects the class and whose lower half selects the slot, sixteen
    /// counts of codewords by length, and one symbol for each codeword. The
    /// tree holds the canonical codewords of these symbols.
    pub open spec fn read(payload: Seq<u8>) -> Result<HuffmanDef, ParseError> {
        if payload.len() < 17 {
            Err(ParseError::TruncatedSegment)
        } else {
            match (class_of(payload[0] / 16), destination_of(payload[0] % 16)) {
                (Some(class), Some(destination)) => {
                    let counts = payload.subrange(1, 17);
                    let n = total(counts);
                    if payload.len() < 17 + n {
                        Err(ParseError::TruncatedSegment)
                    } else {
                        Ok(
                            HuffmanDef {
                                class,
                                destination,
                                tree: built(counts, payload.subrange(17, 17 + n as int), n),
                            },
                        )
                    }
                },
                _ => Err(ParseError::UnsupportedValue),
            }
        }
    }
}

/// A Huffman table with its code tree.
pub struct HuffmanTable {
    pub class: Class,
    pub destination: Destination,
    pub tree: Tree,
}

impl View for HuffmanTable {
    type V = HuffmanDef;

    open spec fn view(&self) -> HuffmanDef {
        HuffmanDef { class: self.class, destination: self.destination, tree: self.tree@ }
    }
}

impl HuffmanTable {
    /// Reads the payload of a Huffman table segment and builds its tree.
    pub fn new(bytes: &[u8]) -> (segment: Result<HuffmanTable, ParseError>)
        ensures
            holds(segment, HuffmanDef::read(bytes@)),
            segment matches Ok(table) ==> table.tree.wf(),
    {
        if bytes.len() < 17 {
            return Err(ParseError::TruncatedSegment);
        }
        let class = match high_nibble(bytes[0]) {
            0 => Class::DC,
            1 => Class::AC,
            _ => {
                return Err(ParseError::UnsupportedValue);
            },
        };
        let destination = match read_destination(low_nibble(bytes[0])) {
            Err(e) => {
                return Err(e);
            },
            Ok(d) => d,
        };
        let ghost counts = bytes@.subrange(1, 17);
        let mut sum: usize = 0;
        let mut n: usize = 0;
        while n < 16
            invariant
                n <= 16,
                bytes@.len() >= 17,
                counts == bytes@.subrange(1, 17),
                sum == first_index(counts, (n + 1) as nat),
                sum <= 255 * n,
            decreases 16 - n,
        {
            sum = sum + bytes[1 + n] as usize;
            n = n + 1;
        }
        if bytes.len() < 17 + sum {
            return Err(ParseError::TruncatedSegment);
        }
        let ghost symbols = bytes@.subrange(17, 17 + sum);
        let mut tree = Tree::new();
        let mut pos: usize = 0;
        let mut code: u32 = 0;
        n = 0;
        while n < 16
            invariant
                n <= 16,
                bytes@.len() >= 17 + sum,
                counts == bytes@.subrange(1, 17),
                symbols == bytes@.subrange(17, 17 + sum),
                sum == total(counts),
                pos == first_index(counts, (n + 1) as nat),
                code == first_code(counts, (n + 1) as nat),
                tree.wf(),
                tree@ == built(counts, symbols, pos as nat),
            decreases 16 - n,
        {
            let count = bytes[1 + n];
            let mut j: u8 = 0;
            proof {
                lemma_first_index_monotonic(counts, (n + 2) as nat, 17);
                lemma_first_code_bound(counts, (n + 2) as nat);
                lemma_pow2_monotonic((n + 1) as nat, 16);
                lemma2_to64();
            }
            while j < count
                invariant
                    n < 16,
                    counts.len() == 16,
                    j <= count == counts[n as int],
                    17 + sum <= bytes@.len() <= usize::MAX,
                    symbols == bytes@.subrange(17, 17 + sum),
                    first_index(counts, (n + 2) as nat) == first_index(counts, (n + 1) as nat)
                        + counts[n as int],
                    first_index(counts, (n + 2) as nat) <= sum,
                    first_code(counts, (n + 2) as nat) <= 510 * 0x10000,
                    pos == first_index(counts, (n + 1) as nat) + j,
                    code == first_code(counts, (n + 1) as nat) + j,
                    tree.wf(),
                    tree@ == built(counts, symbols, pos as nat),
                decreases count - j,
            {
                let symbol = bytes[17 + pos];
                proof {
                    lemma_length_of(counts, pos as nat, (n + 1) as nat);
                    lemma_codeword_low_bits(code, (n + 1) as nat);
                }
                tree.insert_code((code & 0xFFFF) as u16, (n + 1) as u8, symbol);
                pos = pos + 1;
                code = code + 1;
                j = j + 1;
            }
            code = code * 2;
            n = n + 1;
        }
        Ok(HuffmanTable { class, destination, tree })
    }
}

/// The tables that a scan uses for one component.
#[derive(Clone, Copy, Debug)]
pub struct ComponentSOS {
    pub dc_table: Destination,
    pub ac_table: Destination,
}

/// Content of a scan header together with the entropy-coded span.
pub struct ScanHeader {
    pub components: Seq<ComponentSOS>,
    pub data: Seq<u8>,
}

impl ScanHeader {
    /// The tables that the selector byte at `at` names: the DC table in its
    /// upper half, the AC table in its lower half.
    pub open spec fn component(payload: Seq<u8>, at: int) -> Option<ComponentSOS> {
        match (destination_of(payload[at] / 16), destination_of(payload[at] % 16)) {
            (Some(dc_table), Some(ac_table)) => Some(ComponentSOS { dc_table, ac_table }),
            _ => None,
        }
    }

    /// The first `count` components of a payload, or `None` if one of them
    /// names a table slot that does not exist.
    pub open spec fn components(payload: Seq<u8>, count: nat) -> Option<Seq<ComponentSOS>>
        decreases count,
    {
        if count == 0 {
            Some(Seq::empty())
        } else {
            match (
                ScanHeader::components(payload, (count - 1) as nat),
                ScanHeader::component(payload, 2 * count as int),
            ) {
                (Some(before), Some(last)) => Some(before.push(last)),
                _ => None,
            }
        }
    }

    /// What a payload holds as a scan header: the number of components and
    /// two bytes for each of them, the second of which selects the tables.
    /// The span is empty.
    pub open spec fn read(payload: Seq<u8>) -> Result<ScanHeader, ParseError> {
        if payload.len() < 1 || payload.len() < 1 + 2 * payload[0] {
            Err(ParseError::TruncatedSegment)
        } else {
            match ScanHeader::components(payload, payload[0] as nat) {
                None => Err(ParseError::UnsupportedValue),
                Some(components) => Ok(ScanHeader { components, data: Seq::empty() }),
            }
        }
    }
}

/// A scan header and the entropy-coded span that follows it.
#[derive(Debug)]
pub struct StartOfScan<'a> {
    pub components: Vec<ComponentSOS>,
    pub data: &'a [u8],
}

impl<'a> View for StartOfScan<'a> {
    type V = ScanHeader;

    open spec fn view(&self) -> ScanHeader {
        ScanHeader { components: self.components@, data: self.data@ }
    }
}

impl<'a> StartOfScan<'a> {
    /// Reads the payload of a scan header segment. The span is left empty.
    pub fn new(bytes: &'a [u8]) -> (segment: Result<StartOfScan<'a>, ParseError>)
        ensures
            holds(segment, ScanHeader::read(bytes@)),
    {
        if bytes.len() < 1 {
            return Err(ParseError::TruncatedSegment);
        }
        let count = bytes[0] as usize;
        if bytes.len() < 1 + 2 * count {
            return Err(ParseError::TruncatedSegment);
        }
        let mut components: Vec<ComponentSOS> = Vec::new();
        let mut i: usize = 1;
        while i <= count
            invariant
                1 <= i <= count + 1,
                count == bytes@[0],
                bytes@.len() >= 1 + 2 * count,
                ScanHeader::components(bytes@, (i - 1) as nat) == Some(components@),
            decreases count + 1 - i,
        {
            let selector = bytes[i * 2];
            let tables = match (
                read_destination(high_nibble(selector)),
                read_destination(low_nibble(selector)),
            ) {
                (Ok(dc_table), Ok(ac_table)) => ComponentSOS { dc_table, ac_table },
                _ => {
                    proof {
                        lemma_scan_components_fail(bytes@, i as nat, count as nat);
                    }
                    return Err(ParseError::UnsupportedValue);
                },
            };
            components.push(tables);
            i = i + 1;
        }
        let data = slice_subrange(bytes, 0, 0);
        let segment = StartOfScan { components, data };
        proof {
            assert(segment@.data =~= Seq::<u8>::empty());
        }
        Ok(segment)
    }
}

/// A list of scan components that fails at some length fails at every
/// greater one.
proof fn lemma_scan_components_fail(payload: Seq<u8>, k: nat, n: nat)
    requires
        k <= n,
        ScanHeader::components(payload, k).is_none(),
    ensures
        ScanHeader::components(payload, n).is_none(),
    decreases n,
{
    if k < n {
        lemma_scan_components_fail(payload, k, (n - 1) as nat);
    }
}

/// The contents of a sequence of segments.
pub open spec fn views<T: View>(segments: Seq<T>) -> Seq<T::V> {
    Seq::new(segments.len(), |i: int| segments[i]@)
}

/// The first place from `from` on at which `tables` holds a table for
/// `destination`, or the length of `tables` if there is none.
pub open spec fn quantization_slot(
    tables: Seq<QuantizationDef>,
    destination: Destination,
    from: int,
) -> int
    decreases tables.len() - from,
{
    if from < 0 || from >= tables.len() || tables[from].destination == destination {
        from
    } else {
        quantization_slot(tables, destination, from + 1)
    }
}

/// The first place from `from` on at which `tables` holds a table of
/// `class` for `destination`, or the length of `tables` if there is none.
pub open spec fn huffman_slot(
    tables: Seq<HuffmanDef>,
    class: Class,
    destination: Destination,
    from: int,
) -> int
    decreases tables.len() - from,
{
    if from < 0 || from >= tables.len() || (tables[from].class == class
        && tables[from].destination == destination) {
        from
    } else {
        huffman_slot(tables, class, destination, from + 1)
    }
}

/// What the headers of a file hold.
pub struct HeaderSet {
    pub application: Option<AppInfo>,
    /// The quantization tables in the order in which their slots first
    /// occurred.
    pub quantization_tables: Seq<QuantizationDef>,
    pub start_of_frame: Option<FrameHeader>,
    /// The Huffman tables in the order in which their class and slot first
    /// occurred.
    pub huffman_tables: Seq<HuffmanDef>,
    pub start_of_scan: Option<ScanHeader>,
}

impl HeaderSet {
    /// No header at all.
    pub open spec fn empty() -> HeaderSet {
        HeaderSet {
            application: None,
            quantization_tables: Seq::empty(),
            start_of_frame: None,
            huffman_tables: Seq::empty(),
            start_of_scan: None,
        }
    }

    /// The headers after a quantization table was read: it takes the place
    /// of the table for the same slot, or comes last if there is none.
    pub open spec fn with_quantization(self, table: QuantizationDef) -> HeaderSet {
        let slot = quantization_slot(self.quantization_tables, table.destination, 0);
        HeaderSet {
            quantization_tables: if slot < self.quantization_tables.len() {
                self.quantization_tables.update(slot, table)
            } else {
                self.quantization_tables.push(table)
            },
            ..self
        }
    }

    /// The headers after a Huffman table was read: it takes the place of
    /// the table of the same class for the same slot, or comes last if there
    /// is none.
    pub open spec fn with_huffman(self, table: HuffmanDef) -> HeaderSet {
        let slot = huffman_slot(self.huffman_tables, table.class, table.destination, 0);
        HeaderSet {
            huffman_tables: if slot < self.huffman_tables.len() {
                self.huffman_tables.update(slot, table)
            } else {
                self.huffman_tables.push(table)
            },
            ..self
        }
    }
}

/// The headers of a file and its entropy-coded span.
pub struct Segments<'a> {
    pub application: Option<Application0<'a>>,
    pub quantization_tables: Vec<QuantizationTable>,
    pub start_of_frame: Option<StartOfFrame>,
    pub huffman_tables: Vec<HuffmanTable>,
    pub start_of_scan: Option<StartOfScan<'a>>,
}

impl<'a> View for Segments<'a> {
    type V = HeaderSet;

    open spec fn view(&self) -> HeaderSet {
        HeaderSet {
            application: match self.application {
                Some(segment) => Some(segment@),
                None => None,
            },
            quantization_tables: views(self.quantization_tables@),
            start_of_frame: match self.start_of_frame {
                Some(segment) => Some(segment@),
                None => None,
            },
            huffman_tables: views(self.huffman_tables@),
            start_of_scan: match self.start_of_scan {
                Some(segment) => Some(segment@),
                None => None,
            },
        }
    }
}

impl<'a> Segments<'a> {
    /// Every code tree of the set can be used.
    pub open spec fn wf(&self) -> bool {
        forall|i: int| 0 <= i < self.huffman_tables@.len() ==> (#[trigger] self.huffman_tables@[i]).tree.wf()
    }
}

impl<'a> Default for Segments<'a> {
    /// No header at all.
    fn default() -> (segments: Segments<'a>)
        ensures
            segments@ == HeaderSet::empty(),
            segments.wf(),
    {
        let segments = Segments {
            application: None,
            quantization_tables: Vec::new(),
            start_of_frame: None,
            huffman_tables: Vec::new(),
            start_of_scan: None,
        };
        proof {
            assert(segments@.quantization_tables =~= Seq::empty());
            assert(segments@.huffman_tables =~= Seq::empty());
        }
        segments
    }
}

/// Puts a quantization table in the place of the one for the same slot, or
/// behind all the others if there is none.
fn store_quantization(tables: &mut Vec<QuantizationTable>, table: QuantizationTable)
    ensures
        views(final(tables)@) == (if quantization_slot(views(old(tables)@), table@.destination, 0)
            < old(tables)@.len() {
            views(old(tables)@).update(
                quantization_slot(views(old(tables)@), table@.destination, 0),
                table@,
            )
        } else {
            views(old(tables)@).push(table@)
        }),
{
    let ghost before = views(tables@);
    let mut i: usize = 0;
    while i < tables.len()
        invariant
            i <= tables@.len(),
            tables@ == old(tables)@,
            before == views(tables@),
            quantization_slot(before, table@.destination, 0) == quantization_slot(
                before,
                table@.destination,
                i as int,
            ),
        decreases tables@.len() - i,
    {
        let same = match (tables[i].destination, table.destination) {
            (Destination::Luminance, Destination::Luminance) => true,
            (Destination::Chrominance, Destination::Chrominance) => true,
            _ => false,
        };
        if same {
            tables[i] = table;
            proof {
                assert(views(tables@) =~= before.update(i as int, table@));
            }
            return ;
        }
        i = i + 1;
    }
    tables.push(table);
    proof {
        assert(views(tables@) =~= before.push(table@));
    }
}

/// Puts a Huffman table in the place of the one of the same class for the
/// same slot, or behind all the others if there is none.
fn store_huffman(tables: &mut Vec<HuffmanTable>, table: HuffmanTable)
    requires
        table.tree.wf(),
        forall|i: int| 0 <= i < old(tables)@.len() ==> (#[trigger] old(tables)@[i]).tree.wf(),
    ensures
        forall|i: int| 0 <= i < final(tables)@.len() ==> (#[trigger] final(tables)@[i]).tree.wf(),
        views(final(tables)@) == (if huffman_slot(
            views(old(tables)@),
            table@.class,
            table@.destination,
            0,
        ) < old(tables)@.len() {
            views(old(tables)@).update(
                huffman_slot(views(old(tables)@), table@.class, table@.destination, 0),
                table@,
            )
        } else {
            views(old(tables)@).push(table@)
        }),
{
    let ghost before = views(tables@);
    let mut i: usize = 0;
    while i < tables.len()
        invariant
            i <= tables@.len(),
            tables@ == old(tables)@,
            before == views(tables@),
            table.tree.wf(),
            forall|k: int| 0 <= k < tables@.len() ==> (#[trigger] tables@[k]).tree.wf(),
            huffman_slot(before, table@.class, table@.destination, 0) == huffman_slot(
                before,
                table@.class,
                table@.destination,
                i as int,
            ),
        decreases tables@.len() - i,
    {
        let same_class = match (tables[i].class, table.class) {
            (Class::DC, Class::DC) => true,
            (Class::AC, Class::AC) => true,
            _ => false,
        };
        let same_slot = match (tables[i].destination, table.destination) {
            (Destination::Luminance, Destination::Luminance) => true,
            (Destination::Chrominance, Destination::Chrominance) => true,
            _ => false,
        };
        if same_class && same_slot {
            tables[i] = table;
            proof {
                assert(views(tables@) =~= before.update(i as int, table@));
            }
            return ;
        }
        i = i + 1;
    }
    tables.push(table);
    proof {
        assert(views(tables@) =~= before.push(table@));
    }
}

/// No length and no payload follow a `0xFF` and this byte: the two mark the
/// start or the end of the image, or they are no marker at all, but a stuffed
/// zero or a fill byte.
pub open spec fn stands_alone(kind: u8) -> bool {
    kind == 0xD8 || kind == 0xD9 || kind == 0x00 || kind == 0xFF
}

/// The place of the first end-of-image marker from `from` on, or the length
/// of `bytes` if there is none.
pub open spec fn span_end(bytes: Seq<u8>, from: int) -> int
    decreases bytes.len() - from,
{
    if from < 0 || from + 1 >= bytes.len() {
        bytes.len() as int
    } else if bytes[from] == 0xFF && bytes[from + 1] == 0xD9 {
        from
    } else {
        span_end(bytes, from + 1)
    }
}

/// The entropy-coded span that starts at `from`: the bytes up to the first
/// end-of-image marker, without it. Where no such marker follows, the span is
/// empty.
pub open spec fn span(bytes: Seq<u8>, from: int) -> Seq<u8> {
    let end = span_end(bytes, from);
    if end >= bytes.len() {
        Seq::empty()
    } else {
        bytes.subrange(from, end)
    }
}

/// What `bytes` hold from `at` on, added to the headers `found` so far.
///
/// A marker is a `0xFF` and a byte that names its kind; other bytes are
/// passed over. Unless the marker stands alone, two bytes follow that give
/// the length of the segment, themselves included, and then the payload. A
/// segment that does not fit into the bytes that are left is truncated. The
/// segments of the five known kinds are read; the others are passed over
/// by their length. A scan header without a frame header before it is
/// refused. Reading ends with the scan header, which takes the span that
/// follows it.
pub open spec fn parse_from(bytes: Seq<u8>, at: int, found: HeaderSet) -> Result<
    HeaderSet,
    ParseError,
>
    decreases bytes.len() - at,
{
    if at < 0 || at >= bytes.len() {
        Ok(found)
    } else if bytes[at] != 0xFF || at + 1 >= bytes.len() || stands_alone(bytes[at + 1]) {
        parse_from(bytes, at + 1, found)
    } else if at + 3 >= bytes.len() {
        Err(ParseError::TruncatedSegment)
    } else {
        let length = be16(bytes[at + 2], bytes[at + 3]);
        let next = at + 2 + length;
        if length < 2 || next > bytes.len() {
            Err(ParseError::TruncatedSegment)
        } else {
            let payload = bytes.subrange(at + 4, next);
            let kind = bytes[at + 1];
            if kind == 0xE0 {
                match AppInfo::read(payload) {
                    Err(e) => Err(e),
                    Ok(info) => parse_from(
                        bytes,
                        next,
                        HeaderSet { application: Some(info), ..found },
                    ),
                }
            } else if kind == 0xDB {
                match QuantizationDef::read(payload) {
                    Err(e) => Err(e),
                    Ok(table) => parse_from(bytes, next, found.with_quantization(table)),
                }
            } else if kind == 0xC0 {
                match FrameHeader::read(payload) {
                    Err(e) => Err(e),
                    Ok(header) => parse_from(
                        bytes,
                        next,
                        HeaderSet { start_of_frame: Some(header), ..found },
                    ),
                }
            } else if kind == 0xC4 {
                match HuffmanDef::read(payload) {
                    Err(e) => Err(e),
                    Ok(table) => parse_from(bytes, next, found.with_huffman(table)),
                }
            } else if kind == 0xDA {
                if found.start_of_frame.is_none() {
                    Err(ParseError::MissingFrameHeader)
                } else {
                    match ScanHeader::read(payload) {
                        Err(e) => Err(e),
                        Ok(header) => Ok(
                            HeaderSet {
                                start_of_scan: Some(
                                    ScanHeader {
                                        components: header.components,
                                        data: span(bytes, next),
                                    },
                                ),
                                ..found
                            },
                        ),
                    }
                }
            } else {
                parse_from(bytes, next, found)
            }
        }
    }
}

/// What `bytes` hold as the headers of a file.
pub open spec fn parsed(bytes: Seq<u8>) -> Result<HeaderSet, ParseError> {
    parse_from(bytes, 0, HeaderSet::empty())
}

fn is_standalone(kind: u8) -> (alone: bool)
    ensures
        alone == stands_alone(kind),
{
    kind == 0xD8 || kind == 0xD9 || kind == 0x00 || kind == 0xFF
}

/// The entropy-coded span of `bytes` that starts at `from`.
fn find_span<'a>(bytes: &'a [u8], from: usize) -> (data: &'a [u8])
    requires
        from <= bytes@.len(),
    ensures
        data@ == span(bytes@, from as int),
{
    let mut end: usize = from;
    while bytes.len() - end > 1
        invariant
            from <= end <= bytes@.len(),
            span_end(bytes@, end as int) == span_end(bytes@, from as int),
        decreases bytes@.len() - end,
    {
        if bytes[end] == 0xFF && bytes[end + 1] == 0xD9 {
            return slice_subrange(bytes, from, end);
        }
        end = end + 1;
    }
    let data = slice_subrange(bytes, 0, 0);
    proof {
        assert(data@ =~= Seq::<u8>::empty());
    }
    data
}

/// Reads the headers of a file and finds its entropy-coded span.
pub fn parse<'a>(bytes: &'a [u8]) -> (segments: Result<Segments<'a>, ParseError>)
    ensures
        holds(segments, parsed(bytes@)),
        segments matches Ok(found) ==> found.wf(),
{
    let mut segments = Segments::default();
    let len = bytes.len();
    let mut i: usize = 0;
    while i < len
        invariant
            i <= len == bytes@.len(),
            segments.wf(),
            parse_from(bytes@, i as int, segments@) == parsed(bytes@),
        decreases len - i,
    {
        if bytes[i] != 0xFF || len - i <= 1 || is_standalone(bytes[i + 1]) {
            i = i + 1;
            continue ;
        }
        if len - i <= 3 {
            return Err(ParseError::TruncatedSegment);
        }
        let length = get_lenght(slice_subrange(bytes, i + 2, i + 4));
        if length < 2 || length > len - i - 2 {
            return Err(ParseError::TruncatedSegment);
        }
        let next = i + 2 + length;
        let payload = slice_subrange(bytes, i + 4, next);
        let kind = bytes[i + 1];
        if kind == 0xE0 {
            match Application0::new(payload) {
                Err(e) => {
                    return Err(e);
                },
                Ok(segment) => {
                    segments.application = Some(segment);
                },
            }
        } else if kind == 0xDB {
            match QuantizationTable::new(payload) {
                Err(e) => {
                    return Err(e);
                },
                Ok(table) => {
                    store_quantization(&mut segments.quantization_tables, table);
                },
            }
        } else if kind == 0xC0 {
            match StartOfFrame::new(payload) {
                Err(e) => {
                    return Err(e);
                },
                Ok(segment) => {
                    segments.start_of_frame = Some(segment);
                },
            }
        } else if kind == 0xC4 {
            match HuffmanTable::new(payload) {
                Err(e) => {
                    return Err(e);
                },
                Ok(table) => {
                    store_huffman(&mut segments.huffman_tables, table);
                },
            }
        } else if kind == 0xDA {
            if segments.start_of_frame.is_none() {
                return Err(ParseError::MissingFrameHeader);
            }
            match StartOfScan::new(payload) {
                Err(e) => {
                    return Err(e);
                },
                Ok(header) => {
                    segments.start_of_scan = Some(
                        StartOfScan { components: header.components, data: find_span(bytes, next) },
                    );
                    return Ok(segments);
                },
            }
        }
        i = next;
    }
    Ok(segments)
}

} // verus!
