//! Entropy decoding of a scan: a state machine that walks the bit stream with
//! the code trees that the headers name and puts out blocks of coefficients.

use crate::huffman::{
    lemma_bit_of_is_bit, lemma_pow2_monotonic, magnitude, BitCursor, BitStream, DecodeError, Tree,
    Trie,
};
use crate::parsing::{
    huffman_slot, views, Class, ComponentId, Destination, HeaderSet, HuffmanDef, Segments,
};
use vstd::arithmetic::div_mod::{
    lemma_fundamental_div_mod, lemma_fundamental_div_mod_converse, lemma_small_mod,
};
use vstd::arithmetic::power2::lemma2_to64;
use vstd::prelude::*;

verus! {

/// Where the decoder stands between two symbols.
#[derive(Clone, Copy, Debug, PartialEq, Eq)]
pub struct ScanState {
    /// The component of the block that is being filled.
    pub component: ComponentId,
    /// Number of luminance blocks that the unit being decoded still has to
    /// receive, the one being filled included.
    pub remaining: u16,
    /// 0 while the DC coefficient is awaited; otherwise the place, from 1 to
    /// 63, at which the next AC symbol starts.
    pub index: u8,
}

/// The last DC coefficient of each component.
#[derive(Clone, Copy, Debug, PartialEq, Eq)]
pub struct PrevDC {
    pub lum: i16,
    pub cb: i16,
    pub cr: i16,
}

/// What an AC symbol asks for.
#[derive(Clone, Copy, Debug, PartialEq, Eq)]
pub enum AcAction {
    /// The block is complete; what is left of it stays zero.
    EndOfBlock,
    /// A coefficient of `category` bits goes to `at`, which is not the last
    /// place of the block.
    Store { at: u8, category: u8 },
    /// A coefficient of `category` bits goes to the last place of the block,
    /// which completes it.
    StoreLast { category: u8 },
}

/// The place of a component in the order of the headers.
pub open spec fn place_of(component: ComponentId) -> int {
    match component {
        ComponentId::LumY => 0,
        ComponentId::ChromCb => 1,
        ComponentId::ChromCr => 2,
    }
}

/// The state at the start of a scan, for units of `luma_units` luminance
/// blocks.
pub open spec fn start_state(luma_units: u16) -> ScanState {
    ScanState { component: ComponentId::LumY, remaining: luma_units, index: 0 }
}

/// The state after a block was completed: the luminance blocks of a unit
/// come first, then one block of Cb, then one of Cr, then the next unit.
pub open spec fn after_block(state: ScanState, luma_units: u16) -> ScanState {
    match state.component {
        ComponentId::LumY => if state.remaining > 1 {
            ScanState {
                component: ComponentId::LumY,
                remaining: (state.remaining - 1) as u16,
                index: 0,
            }
        } else {
            ScanState { component: ComponentId::ChromCb, remaining: luma_units, index: 0 }
        },
        ComponentId::ChromCb => ScanState {
            component: ComponentId::ChromCr,
            remaining: state.remaining,
            index: 0,
        },
        ComponentId::ChromCr => ScanState {
            component: ComponentId::LumY,
            remaining: state.remaining,
            index: 0,
        },
    }
}

/// The state in which block `n` of a scan is begun, counted from 0.
pub open spec fn block_state(n: nat, luma_units: u16) -> ScanState
    decreases n,
{
    if n == 0 {
        start_state(luma_units)
    } else {
        after_block(block_state((n - 1) as nat, luma_units), luma_units)
    }
}

/// The component of block `n` of a scan whose units hold `luma_units`
/// luminance blocks, then one block of Cb, then one of Cr.
pub open spec fn component_at(n: nat, luma_units: int) -> ComponentId {
    let k = n as int % (luma_units + 2);
    if k < luma_units {
        ComponentId::LumY
    } else if k == luma_units {
        ComponentId::ChromCb
    } else {
        ComponentId::ChromCr
    }
}

/// Number of luminance blocks that the unit of block `n` still has to
/// receive when that block is begun.
pub open spec fn units_left(n: nat, luma_units: int) -> int {
    let k = n as int % (luma_units + 2);
    if k < luma_units {
        luma_units - k
    } else {
        luma_units
    }
}

/// The blocks of a scan come in units: first the luminance blocks, then one
/// block of Cb, then one of Cr, and so on from the start.
pub proof fn lemma_round_robin(n: nat, luma_units: u16)
    requires
        luma_units >= 1,
    ensures
        block_state(n, luma_units).component == component_at(n, luma_units as int),
        block_state(n, luma_units).index == 0,
        block_state(n, luma_units).remaining == units_left(n, luma_units as int),
    decreases n,
{
    let size = luma_units as int + 2;
    if n > 0 {
        let m = (n - 1) as nat;
        lemma_round_robin(m, luma_units);
        lemma_fundamental_div_mod(m as int, size);
        let q = m as int / size;
        let r = m as int % size;
        assert(size * q + (r + 1) == n);
        if r + 1 < size {
            lemma_fundamental_div_mod_converse(n as int, size, q, r + 1);
        } else {
            assert(size * (q + 1) + 0 == n) by (nonlinear_arith)
                requires
                    size * q + (r + 1) == n,
                    r + 1 == size,
            ;
            lemma_fundamental_div_mod_converse(n as int, size, q + 1, 0);
        }
    } else {
        lemma_small_mod(0, size as nat);
    }
}

/// Where every unit holds four luminance blocks, the blocks of a scan come
/// in groups of six: four of luminance, one of Cb, one of Cr.
pub proof fn lemma_round_robin_of_six(n: nat)
    ensures
        block_state(n, 4).component == (if n % 6 < 4 {
            ComponentId::LumY
        } else if n % 6 == 4 {
            ComponentId::ChromCb
        } else {
            ComponentId::ChromCr
        }),
{
    lemma_round_robin(n, 4);
}

/// The decoder is in the state in which the block behind those that are
/// complete is begun, but for the place within the block.
pub open spec fn in_order(progress: Progress, luma_units: u16) -> bool {
    let begun = block_state(progress.blocks.len(), luma_units);
    progress.state.component == begun.component && progress.state.remaining == begun.remaining
}

/// Every step of the decoder keeps the blocks in the order of their units.
pub proof fn lemma_step_in_order(headers: HeaderSet, progress: Progress)
    requires
        in_order(progress, luma_units(headers)),
    ensures
        progress.step(headers) matches Some(next) ==> in_order(next, luma_units(headers)),
{
}

/// What the AC symbol `symbol` asks for when the next place is `index`. The
/// upper half of the symbol is a run of zeros, the lower half the category
/// of the coefficient behind them. The symbol 0 ends the block. A run that
/// reaches the last place, or passes it, ends on the last place.
pub open spec fn ac_action(index: u8, symbol: u8) -> AcAction {
    if symbol == 0 {
        AcAction::EndOfBlock
    } else if index + symbol / 16 >= 63 {
        AcAction::StoreLast { category: symbol % 16 }
    } else {
        AcAction::Store { at: (index + symbol / 16) as u8, category: symbol % 16 }
    }
}

/// The last DC coefficient of `component`.
pub open spec fn previous_of(previous: PrevDC, component: ComponentId) -> i16 {
    match component {
        ComponentId::LumY => previous.lum,
        ComponentId::ChromCb => previous.cb,
        ComponentId::ChromCr => previous.cr,
    }
}

/// `previous` with `value` as the last DC coefficient of `component`.
pub open spec fn with_previous(previous: PrevDC, component: ComponentId, value: i16) -> PrevDC {
    match component {
        ComponentId::LumY => PrevDC { lum: value, ..previous },
        ComponentId::ChromCb => PrevDC { cb: value, ..previous },
        ComponentId::ChromCr => PrevDC { cr: value, ..previous },
    }
}

/// Number of luminance blocks in a unit: the product of the sampling
/// factors of the first component of the frame.
pub open spec fn luma_units(headers: HeaderSet) -> u16 {
    match headers.start_of_frame {
        Some(frame) => if frame.components.len() > 0 {
            (frame.components[0].factors.0 * frame.components[0].factors.1) as u16
        } else {
            0
        },
        None => 0,
    }
}

/// The slot of the table of `class` that the scan header names for
/// `component`.
pub open spec fn slot_of(headers: HeaderSet, component: ComponentId, class: Class) -> Option<
    Destination,
> {
    match headers.start_of_scan {
        Some(scan) => if place_of(component) < scan.components.len() {
            let tables = scan.components[place_of(component)];
            Some(
                match class {
                    Class::DC => tables.dc_table,
                    Class::AC => tables.ac_table,
                },
            )
        } else {
            None
        },
        None => None,
    }
}

/// The place among the Huffman tables of the one of `class` that the scan
/// uses for `component`.
pub open spec fn table_of(headers: HeaderSet, component: ComponentId, class: Class) -> Option<
    int,
> {
    match slot_of(headers, component, class) {
        Some(slot) => {
            let place = huffman_slot(headers.huffman_tables, class, slot, 0);
            if place < headers.huffman_tables.len() {
                Some(place)
            } else {
                None
            }
        },
        None => None,
    }
}

/// Decodes one symbol: bits are read and the tree is walked until a symbol
/// is reached, the span ends or the tree has no child for a bit.
pub open spec fn decode_symbol(trie: Trie, cursor: BitCursor) -> (
    Result<u8, DecodeError>,
    Trie,
    BitCursor,
)
    decreases cursor.bits_left(),
    when cursor.wf()
{
    match cursor.next_bit() {
        None => (Err(DecodeError::UnexpectedEndOfStream), trie, cursor),
        Some((bit, behind)) => match trie.step(bit == 1) {
            (Err(e), stuck) => (Err(e), stuck, behind),
            (Ok(Some(symbol)), root) => (Ok(symbol), root, behind),
            (Ok(None), below) => decode_symbol(below, behind),
        },
    }
}

/// A block of 64 zeros.
pub open spec fn empty_block() -> Seq<i16> {
    Seq::new(64, |i: int| 0i16)
}

/// What the decoder holds between two symbols.
pub struct Progress {
    /// The place in the span.
    pub cursor: BitCursor,
    pub state: ScanState,
    pub previous: PrevDC,
    /// The block that is being filled.
    pub block: Seq<i16>,
    /// The blocks that are complete.
    pub blocks: Seq<Seq<i16>>,
}

impl Progress {
    /// What the decoder holds at the start of the span `data`.
    pub open spec fn start(data: Seq<u8>, luma_units: u16) -> Progress {
        Progress {
            cursor: BitCursor { data, byte: 0, bit: 8 },
            state: start_state(luma_units),
            previous: PrevDC { lum: 0, cb: 0, cr: 0 },
            block: empty_block(),
            blocks: Seq::empty(),
        }
    }

    /// The progress after `block` was completed with the cursor at `cursor`.
    pub open spec fn emit(self, block: Seq<i16>, cursor: BitCursor, luma_units: u16) -> Progress {
        Progress {
            cursor,
            state: after_block(self.state, luma_units),
            previous: self.previous,
            block: empty_block(),
            blocks: self.blocks.push(block),
        }
    }

    /// The progress after the DC symbol `category` was decoded with the
    /// cursor at `cursor`: the magnitude bits give the difference to the last
    /// DC coefficient of the component. Nothing where the category is above
    /// 15, the span ends within the bits, or the sum leaves the range of 16
    /// bits.
    pub open spec fn dc_step(self, category: u8, cursor: BitCursor) -> Option<Progress> {
        if category > 15 {
            None
        } else {
            match cursor.read_bits(category as nat) {
                (None, _) => None,
                (Some(raw), behind) => {
                    let value = previous_of(self.previous, self.state.component) + magnitude(
                        raw,
                        category as nat,
                    );
                    if value < i16::MIN || value > i16::MAX {
                        None
                    } else {
                        Some(
                            Progress {
                                cursor: behind,
                                state: ScanState { index: 1, ..self.state },
                                previous: with_previous(
                                    self.previous,
                                    self.state.component,
                                    value as i16,
                                ),
                                block: self.block.update(0, value as i16),
                                blocks: self.blocks,
                            },
                        )
                    }
                },
            }
        }
    }

    /// The progress after the AC symbol `symbol` was decoded with the cursor
    /// at `cursor`. Nothing where the span ends within the magnitude bits.
    pub open spec fn ac_step(self, symbol: u8, cursor: BitCursor, luma_units: u16) -> Option<
        Progress,
    > {
        match ac_action(self.state.index, symbol) {
            AcAction::EndOfBlock => Some(self.emit(self.block, cursor, luma_units)),
            AcAction::StoreLast { category } => match cursor.read_bits(category as nat) {
                (None, _) => None,
                (Some(raw), behind) => Some(
                    self.emit(
                        self.block.update(63, magnitude(raw, category as nat) as i16),
                        behind,
                        luma_units,
                    ),
                ),
            },
            AcAction::Store { at, category } => match cursor.read_bits(category as nat) {
                (None, _) => None,
                (Some(raw), behind) => Some(
                    Progress {
                        cursor: behind,
                        state: ScanState { index: (at + 1) as u8, ..self.state },
                        previous: self.previous,
                        block: self.block.update(at as int, magnitude(raw, category as nat) as i16),
                        blocks: self.blocks,
                    },
                ),
            },
        }
    }

    /// The progress after one more coefficient, or nothing where decoding
    /// stops: the scan names no table for the component, the span ends or a
    /// marker is reached, the tree has no child for a bit, or the coefficient
    /// cannot be taken.
    pub open spec fn step(self, headers: HeaderSet) -> Option<Progress> {
        let class = if self.state.index == 0 {
            Class::DC
        } else {
            Class::AC
        };
        match table_of(headers, self.state.component, class) {
            None => None,
            Some(place) => {
                let trie = Trie {
                    nodes: headers.huffman_tables[place].tree.nodes,
                    cursor: Seq::empty(),
                };
                match decode_symbol(trie, self.cursor) {
                    (Err(_), _, _) => None,
                    (Ok(symbol), _, cursor) => if self.state.index == 0 {
                        self.dc_step(symbol, cursor)
                    } else {
                        self.ac_step(symbol, cursor, luma_units(headers))
                    },
                }
            },
        }
    }
}

/// Reading a bit leaves a cursor within its span and one bit further on.
pub proof fn lemma_next_bit_advances(cursor: BitCursor)
    requires
        cursor.wf(),
    ensures
        cursor.next_bit() matches Some((_, behind)) ==> behind.wf() && behind.data == cursor.data
            && behind.bits_left() < cursor.bits_left(),
{
}

/// Reading bits leaves a cursor within its span and no nearer to its start.
pub proof fn lemma_read_bits_advances(cursor: BitCursor, n: nat)
    requires
        cursor.wf(),
    ensures
        cursor.read_bits(n).1.wf(),
        cursor.read_bits(n).1.data == cursor.data,
        cursor.read_bits(n).1.bits_left() <= cursor.bits_left(),
    decreases n,
{
    if n > 0 {
        lemma_read_bits_advances(cursor, (n - 1) as nat);
        lemma_next_bit_advances(cursor.read_bits((n - 1) as nat).1);
    }
}

/// Decoding a symbol leaves a cursor within its span, and further on where
/// a symbol was found.
pub proof fn lemma_decode_symbol_advances(trie: Trie, cursor: BitCursor)
    requires
        cursor.wf(),
    ensures
        decode_symbol(trie, cursor).2.wf(),
        decode_symbol(trie, cursor).2.data == cursor.data,
        decode_symbol(trie, cursor).2.bits_left() <= cursor.bits_left(),
        decode_symbol(trie, cursor).0.is_ok() ==> decode_symbol(trie, cursor).2.bits_left()
            < cursor.bits_left(),
    decreases cursor.bits_left(),
{
    lemma_next_bit_advances(cursor);
    match cursor.next_bit() {
        None => {},
        Some((bit, behind)) => match trie.step(bit == 1) {
            (Ok(None), below) => {
                lemma_decode_symbol_advances(below, behind);
            },
            _ => {},
        },
    }
}

/// Every step of the decoder moves the cursor on.
pub proof fn lemma_step_advances(headers: HeaderSet, progress: Progress)
    requires
        progress.cursor.wf(),
    ensures
        progress.step(headers) matches Some(next) ==> next.cursor.wf() && next.cursor.data
            == progress.cursor.data && next.cursor.bits_left() < progress.cursor.bits_left(),
{
    let class = if progress.state.index == 0 {
        Class::DC
    } else {
        Class::AC
    };
    match table_of(headers, progress.state.component, class) {
        None => {},
        Some(place) => {
            let trie = Trie {
                nodes: headers.huffman_tables[place].tree.nodes,
                cursor: Seq::empty(),
            };
            lemma_decode_symbol_advances(trie, progress.cursor);
            let cursor = decode_symbol(trie, progress.cursor).2;
            assert forall|n: nat| #![trigger cursor.read_bits(n)] cursor.read_bits(n).1.wf()
                && cursor.read_bits(n).1.data == cursor.data && cursor.read_bits(n).1.bits_left()
                <= cursor.bits_left() by {
                lemma_read_bits_advances(cursor, n);
            }
        },
    }
}

/// The blocks that the decoder completes from `progress` on: it goes on
/// step by step until a step cannot be made.
pub open spec fn scan_from(headers: HeaderSet, progress: Progress) -> Seq<Seq<i16>>
    decreases progress.cursor.bits_left(),
    when progress.cursor.wf()
    via scan_from_ends
{
    match progress.step(headers) {
        None => progress.blocks,
        Some(next) => scan_from(headers, next),
    }
}

#[via_fn]
proof fn scan_from_ends(headers: HeaderSet, progress: Progress) {
    lemma_step_advances(headers, progress);
}

/// The blocks of coefficients that the scan of `headers` holds, in the
/// order in which they are coded. Without a scan header there is none.
pub open spec fn scanned(headers: HeaderSet) -> Seq<Seq<i16>> {
    match headers.start_of_scan {
        Some(scan) => scan_from(headers, Progress::start(scan.data, luma_units(headers))),
        None => Seq::empty(),
    }
}

impl ScanState {
    /// The state at the start of a scan, for units of `luma_units`
    /// luminance blocks.
    pub fn start(luma_units: u16) -> (state: ScanState)
        ensures
            state == start_state(luma_units),
    {
        ScanState { component: ComponentId::LumY, remaining: luma_units, index: 0 }
    }

    /// The state after a block was completed.
    pub fn advance(self, luma_units: u16) -> (state: ScanState)
        ensures
            state == after_block(self, luma_units),
    {
        match self.component {
            ComponentId::LumY => if self.remaining > 1 {
                ScanState { component: ComponentId::LumY, remaining: self.remaining - 1, index: 0 }
            } else {
                ScanState { component: ComponentId::ChromCb, remaining: luma_units, index: 0 }
            },
            ComponentId::ChromCb => ScanState {
                component: ComponentId::ChromCr,
                remaining: self.remaining,
                index: 0,
            },
            ComponentId::ChromCr => ScanState {
                component: ComponentId::LumY,
                remaining: self.remaining,
                index: 0,
            },
        }
    }
}

impl AcAction {
    /// What the AC symbol `symbol` asks for when the next place is `index`.
    pub fn of(index: u8, symbol: u8) -> (action: AcAction)
        ensures
            action == ac_action(index, symbol),
    {
        assert(symbol >> 4 == symbol / 16) by (bit_vector);
        assert(symbol & 0x0F == symbol % 16) by (bit_vector);
        let run = symbol >> 4;
        let category = symbol & 0x0F;
        if symbol == 0 {
            AcAction::EndOfBlock
        } else if index as u16 + run as u16 >= 63 {
            AcAction::StoreLast { category }
        } else {
            AcAction::Store { at: index + run, category }
        }
    }
}

/// Decodes one symbol from `stream` with `tree`. Where no symbol is reached
/// the tree's cursor stays on the node at which decoding stopped.
pub fn read_symbol(tree: &mut Tree, stream: &mut BitStream) -> (symbol: Result<u8, DecodeError>)
    requires
        old(tree).wf(),
        old(stream)@.wf(),
    ensures
        final(tree).wf(),
        final(stream)@.wf(),
        (symbol, final(tree)@, final(stream)@) == decode_symbol(old(tree)@, old(stream)@),
{
    loop
        invariant
            tree.wf(),
            stream@.wf(),
            decode_symbol(tree@, stream@) == decode_symbol(old(tree)@, old(stream)@),
        decreases stream@.bits_left(),
    {
        let ghost cursor = stream@;
        match stream.next_bit() {
            None => {
                return Err(DecodeError::UnexpectedEndOfStream);
            },
            Some(bit) => {
                proof {
                    lemma_bit_of_is_bit();
                    lemma_next_bit_advances(cursor);
                }
                match tree.forward(bit) {
                    Err(e) => {
                        return Err(e);
                    },
                    Ok(Some(symbol)) => {
                        return Ok(symbol);
                    },
                    Ok(None) => {},
                }
            },
        }
    }
}

/// Two sets of headers differ at most in where the cursors of their code
/// trees stand.
pub open spec fn same_tables(now: HeaderSet, then: HeaderSet) -> bool {
    &&& now.application == then.application
    &&& now.quantization_tables == then.quantization_tables
    &&& now.start_of_frame == then.start_of_frame
    &&& now.start_of_scan == then.start_of_scan
    &&& now.huffman_tables.len() == then.huffman_tables.len()
    &&& forall|i: int|
        0 <= i < now.huffman_tables.len() ==> {
            &&& (#[trigger] now.huffman_tables[i]).class == then.huffman_tables[i].class
            &&& now.huffman_tables[i].destination == then.huffman_tables[i].destination
            &&& now.huffman_tables[i].tree.nodes == then.huffman_tables[i].tree.nodes
        }
}

/// `headers` with the cursor of every code tree on the root.
pub open spec fn rewound(headers: HeaderSet) -> HeaderSet {
    HeaderSet {
        huffman_tables: Seq::new(
            headers.huffman_tables.len(),
            |i: int|
                HuffmanDef {
                    class: headers.huffman_tables[i].class,
                    destination: headers.huffman_tables[i].destination,
                    tree: Trie { nodes: headers.huffman_tables[i].tree.nodes, cursor: Seq::empty() },
                },
        ),
        ..headers
    }
}

/// Tables that agree in class and slot are found at the same place.
proof fn lemma_same_slot(
    now: Seq<HuffmanDef>,
    then: Seq<HuffmanDef>,
    class: Class,
    slot: Destination,
    from: int,
)
    requires
        now.len() == then.len(),
        forall|i: int|
            0 <= i < now.len() ==> (#[trigger] now[i]).class == then[i].class && now[i].destination
                == then[i].destination,
    ensures
        huffman_slot(now, class, slot, from) == huffman_slot(then, class, slot, from),
    decreases now.len() - from,
{
    if 0 <= from < now.len() && !(now[from].class == class && now[from].destination == slot) {
        lemma_same_slot(now, then, class, slot, from + 1);
    }
}

impl PrevDC {
    /// The last DC coefficient of `component`.
    pub fn of(self, component: ComponentId) -> (value: i16)
        ensures
            value == previous_of(self, component),
    {
        match component {
            ComponentId::LumY => self.lum,
            ComponentId::ChromCb => self.cb,
            ComponentId::ChromCr => self.cr,
        }
    }

    /// `self` with `value` as the last DC coefficient of `component`.
    pub fn with(self, component: ComponentId, value: i16) -> (previous: PrevDC)
        ensures
            previous == with_previous(self, component, value),
    {
        match component {
            ComponentId::LumY => PrevDC { lum: value, cb: self.cb, cr: self.cr },
            ComponentId::ChromCb => PrevDC { lum: self.lum, cb: value, cr: self.cr },
            ComponentId::ChromCr => PrevDC { lum: self.lum, cb: self.cb, cr: value },
        }
    }
}

/// Number of luminance blocks in a unit.
fn luma_units_of(segments: &Segments) -> (units: u16)
    ensures
        units == luma_units(segments@),
{
    match &segments.start_of_frame {
        Some(frame) => if frame.components.len() > 0 {
            let factors = frame.components[0].factors;
            assert(factors.0 * factors.1 <= 255 * 255) by (nonlinear_arith)
                requires
                    0 <= factors.0 <= 255,
                    0 <= factors.1 <= 255,
            ;
            factors.0 as u16 * factors.1 as u16
        } else {
            0
        },
        None => 0,
    }
}

/// The place among the Huffman tables of the one of `class` that the scan
/// uses for `component`.
fn table_place(segments: &Segments, component: ComponentId, class: Class) -> (place: Option<usize>)
    ensures
        match place {
            Some(k) => table_of(segments@, component, class) == Some(k as int) && k
                < segments.huffman_tables@.len(),
            None => table_of(segments@, component, class).is_none(),
        },
{
    let scan = match &segments.start_of_scan {
        Some(scan) => scan,
        None => {
            return None;
        },
    };
    let at: usize = match component {
        ComponentId::LumY => 0,
        ComponentId::ChromCb => 1,
        ComponentId::ChromCr => 2,
    };
    if at >= scan.components.len() {
        return None;
    }
    let slot = match class {
        Class::DC => scan.components[at].dc_table,
        Class::AC => scan.components[at].ac_table,
    };
    let ghost tables = views(segments.huffman_tables@);
    assert(slot_of(segments@, component, class) == Some(slot));
    let mut i: usize = 0;
    while i < segments.huffman_tables.len()
        invariant
            i <= segments.huffman_tables@.len(),
            tables == views(segments.huffman_tables@),
            slot_of(segments@, component, class) == Some(slot),
            huffman_slot(tables, class, slot, 0) == huffman_slot(tables, class, slot, i as int),
        decreases segments.huffman_tables@.len() - i,
    {
        let same_class = match (segments.huffman_tables[i].class, class) {
            (Class::DC, Class::DC) => true,
            (Class::AC, Class::AC) => true,
            _ => false,
        };
        let same_slot = match (segments.huffman_tables[i].destination, slot) {
            (Destination::Luminance, Destination::Luminance) => true,
            (Destination::Chrominance, Destination::Chrominance) => true,
            _ => false,
        };
        assert(tables[i as int] == segments.huffman_tables@[i as int]@);
        if same_class && same_slot {
            return Some(i);
        }
        i = i + 1;
    }
    None
}

/// Puts the cursor of every code tree back on the root.
fn rewind(segments: &mut Segments)
    requires
        old(segments).wf(),
    ensures
        final(segments).wf(),
        final(segments)@ == rewound(old(segments)@),
{
    let mut i: usize = 0;
    while i < segments.huffman_tables.len()
        invariant
            i <= segments.huffman_tables@.len(),
            segments.wf(),
            same_tables(segments@, old(segments)@),
            forall|k: int|
                0 <= k < i ==> (#[trigger] segments.huffman_tables@[k]).tree@.cursor
                    == Seq::<bool>::empty(),
        decreases segments.huffman_tables@.len() - i,
    {
        let ghost before = segments@;
        segments.huffman_tables[i].tree.reset();
        proof {
            assert forall|k: int| 0 <= k < segments@.huffman_tables.len() implies {
                &&& (#[trigger] segments@.huffman_tables[k]).class
                    == old(segments)@.huffman_tables[k].class
                &&& segments@.huffman_tables[k].destination
                    == old(segments)@.huffman_tables[k].destination
                &&& segments@.huffman_tables[k].tree.nodes
                    == old(segments)@.huffman_tables[k].tree.nodes
            } by {
                assert(before.huffman_tables[k].class == old(segments)@.huffman_tables[k].class);
            }
        }
        i = i + 1;
    }
    proof {
        assert(segments@.huffman_tables =~= rewound(old(segments)@).huffman_tables);
    }
}

/// Headers that differ in the cursors of their trees only name the same
/// table for a component.
proof fn lemma_same_table_of(
    now: HeaderSet,
    then: HeaderSet,
    component: ComponentId,
    class: Class,
)
    requires
        same_tables(now, then),
    ensures
        table_of(now, component, class) == table_of(then, component, class),
{
    match slot_of(then, component, class) {
        Some(slot) => {
            lemma_same_slot(now.huffman_tables, then.huffman_tables, class, slot, 0);
        },
        None => {},
    }
}

/// Decoding a symbol changes no node of the tree, and a symbol that was
/// found leaves the cursor on the root.
pub proof fn lemma_decode_symbol_tree(trie: Trie, cursor: BitCursor)
    requires
        cursor.wf(),
    ensures
        decode_symbol(trie, cursor).1.nodes == trie.nodes,
        decode_symbol(trie, cursor).0.is_ok() ==> decode_symbol(trie, cursor).1.cursor
            == Seq::<bool>::empty(),
    decreases cursor.bits_left(),
{
    lemma_next_bit_advances(cursor);
    match cursor.next_bit() {
        None => {},
        Some((bit, behind)) => match trie.step(bit == 1) {
            (Ok(None), below) => {
                lemma_decode_symbol_tree(below, behind);
            },
            _ => {},
        },
    }
}

/// Decodes one symbol with the tree of the table at `place`.
fn symbol_with(segments: &mut Segments, place: usize, stream: &mut BitStream) -> (symbol: Result<
    u8,
    DecodeError,
>)
    requires
        old(segments).wf(),
        place < old(segments).huffman_tables@.len(),
        old(stream)@.wf(),
    ensures
        final(segments).wf(),
        same_tables(final(segments)@, old(segments)@),
        forall|k: int|
            0 <= k < final(segments).huffman_tables@.len() && k != place ==> (
            #[trigger] final(segments).huffman_tables@[k]).tree@ == old(
                segments,
            ).huffman_tables@[k].tree@,
        final(stream)@.wf(),
        (symbol, final(segments).huffman_tables@[place as int].tree@, final(stream)@)
            == decode_symbol(old(segments).huffman_tables@[place as int].tree@, old(stream)@),
{
    proof {
        lemma_decode_symbol_tree(segments.huffman_tables@[place as int].tree@, stream@);
    }
    let symbol = read_symbol(&mut segments.huffman_tables[place].tree, stream);
    proof {
        assert forall|k: int| 0 <= k < segments@.huffman_tables.len() implies {
            &&& (#[trigger] segments@.huffman_tables[k]).class
                == old(segments)@.huffman_tables[k].class
            &&& segments@.huffman_tables[k].destination
                == old(segments)@.huffman_tables[k].destination
            &&& segments@.huffman_tables[k].tree.nodes
                == old(segments)@.huffman_tables[k].tree.nodes
        } by {
            assert(segments.huffman_tables@[k]@ == segments@.huffman_tables[k]);
        }
    }
    symbol
}

/// The decoder between two symbols.
struct Decoder<'a> {
    stream: BitStream<'a>,
    state: ScanState,
    previous: PrevDC,
    block: [i16; 64],
    blocks: Vec<[i16; 64]>,
}

impl<'a> View for Decoder<'a> {
    type V = Progress;

    closed spec fn view(&self) -> Progress {
        Progress {
            cursor: self.stream@,
            state: self.state,
            previous: self.previous,
            block: self.block@,
            blocks: views(self.blocks@),
        }
    }
}

impl<'a> Decoder<'a> {
    /// A decoder at the start of the span `data`.
    fn new(data: &'a [u8], units: u16) -> (decoder: Decoder<'a>)
        ensures
            decoder@ == Progress::start(data@, units),
    {
        let decoder = Decoder {
            stream: BitStream::new(data),
            state: ScanState::start(units),
            previous: PrevDC { lum: 0, cb: 0, cr: 0 },
            block: [0;64],
            blocks: Vec::new(),
        };
        proof {
            assert(decoder@.block =~= empty_block());
            assert(decoder@.blocks =~= Seq::<Seq<i16>>::empty());
        }
        decoder
    }

    /// Completes the block that is being filled.
    fn emit(&mut self, units: u16)
        ensures
            final(self)@ == old(self)@.emit(old(self)@.block, old(self)@.cursor, units),
    {
        self.blocks.push(self.block);
        self.block = [0;64];
        self.state = self.state.advance(units);
        proof {
            assert(self@.block =~= empty_block());
            assert(self@.blocks =~= old(self)@.blocks.push(old(self)@.block));
        }
    }

    /// Takes the DC coefficient whose category was decoded. Returns whether
    /// it could be taken.
    fn dc_step(&mut self, category: u8) -> (taken: bool)
        requires
            old(self)@.cursor.wf(),
            old(self)@.state.index == 0,
        ensures
            final(self)@.cursor.wf(),
            match old(self)@.dc_step(category, old(self)@.cursor) {
                Some(next) => taken && final(self)@ == next,
                None => !taken && final(self)@.blocks == old(self)@.blocks,
            },
    {
        if category > 15 {
            return false;
        }
        proof {
            lemma2_to64();
            lemma_pow2_monotonic(category as nat, 15);
        }
        let difference = match self.stream.get_coeff(category) {
            Err(_) => {
                return false;
            },
            Ok(difference) => difference,
        };
        let sum: i32 = self.previous.of(self.state.component) as i32 + difference as i32;
        if sum < -32768 || sum > 32767 {
            return false;
        }
        let value = sum as i16;
        self.previous = self.previous.with(self.state.component, value);
        self.block[0] = value;
        self.state.index = 1;
        true
    }

    /// Takes what the AC symbol that was decoded asks for. Returns whether
    /// it could be taken.
    fn ac_step(&mut self, symbol: u8, units: u16) -> (taken: bool)
        requires
            old(self)@.cursor.wf(),
            1 <= old(self)@.state.index <= 63,
        ensures
            final(self)@.cursor.wf(),
            final(self)@.state.index <= 63,
            match old(self)@.ac_step(symbol, old(self)@.cursor, units) {
                Some(next) => taken && final(self)@ == next,
                None => !taken && final(self)@.blocks == old(self)@.blocks,
            },
    {
        match AcAction::of(self.state.index, symbol) {
            AcAction::EndOfBlock => {
                self.emit(units);
                true
            },
            AcAction::StoreLast { category } => {
                let value = match self.stream.get_coeff(category) {
                    Err(_) => {
                        return false;
                    },
                    Ok(value) => value,
                };
                self.block[63] = value;
                self.emit(units);
                true
            },
            AcAction::Store { at, category } => {
                let value = match self.stream.get_coeff(category) {
                    Err(_) => {
                        return false;
                    },
                    Ok(value) => value,
                };
                self.block[at as usize] = value;
                self.state.index = at + 1;
                true
            },
        }
    }
}

/// Decodes the entropy-coded span of `segments` into blocks of 64
/// coefficients, in the order in which they are coded: the DC coefficient
/// first, then the AC coefficients in zigzag order. Decoding stops without
/// error where the span ends, a marker is reached, a tree has no child for a
/// bit, the scan names no table for a component, a DC category is above 15,
/// or a DC coefficient leaves the range of 16 bits; the blocks that were
/// complete by then are returned, and no other. Every code tree is walked
/// from its root, and the cursors of all of them are on the root afterwards.
pub fn scan_blocks(segments: &mut Segments) -> (blocks: Vec<[i16; 64]>)
    requires
        old(segments).wf(),
    ensures
        views(blocks@) == scanned(old(segments)@),
        final(segments).wf(),
        final(segments)@ == rewound(old(segments)@),
{
    let ghost headers = segments@;
    rewind(segments);
    let data = match &segments.start_of_scan {
        Some(scan) => scan.data,
        None => {
            let blocks: Vec<[i16; 64]> = Vec::new();
            proof {
                assert(views(blocks@) =~= Seq::<Seq<i16>>::empty());
            }
            return blocks;
        },
    };
    let units = luma_units_of(segments);
    let mut decoder = Decoder::new(data, units);
    loop
        invariant_except_break
            forall|k: int|
                0 <= k < segments@.huffman_tables.len() ==> (
                #[trigger] segments@.huffman_tables[k]).tree.cursor == Seq::<bool>::empty(),
            decoder@.cursor.wf(),
            decoder@.state.index <= 63,
            scan_from(headers, decoder@) == scanned(headers),
        invariant
            segments.wf(),
            same_tables(segments@, headers),
            units == luma_units(headers),
        ensures
            views(decoder.blocks@) == scanned(headers),
        decreases decoder@.cursor.bits_left(),
    {
        let ghost progress = decoder@;
        let class = if decoder.state.index == 0 {
            Class::DC
        } else {
            Class::AC
        };
        proof {
            lemma_same_table_of(segments@, headers, progress.state.component, class);
            lemma_step_advances(headers, progress);
        }
        let place = match table_place(segments, decoder.state.component, class) {
            None => {
                break ;
            },
            Some(k) => k,
        };
        let ghost trie = Trie {
            nodes: headers.huffman_tables[place as int].tree.nodes,
            cursor: Seq::empty(),
        };
        proof {
            assert(segments.huffman_tables@[place as int]@ == segments@.huffman_tables[place as int]);
            assert(segments.huffman_tables@[place as int].tree@ == trie);
            lemma_decode_symbol_tree(trie, progress.cursor);
            lemma_decode_symbol_advances(trie, progress.cursor);
        }
        let ghost before = *segments;
        let symbol = match symbol_with(segments, place, &mut decoder.stream) {
            Err(_) => {
                break ;
            },
            Ok(symbol) => symbol,
        };
        proof {
            assert forall|k: int| 0 <= k < segments@.huffman_tables.len() implies (
            #[trigger] segments@.huffman_tables[k]).tree.cursor == Seq::<bool>::empty() by {
                assert(segments.huffman_tables@[k]@ == segments@.huffman_tables[k]);
                assert(before.huffman_tables@[k]@ == before@.huffman_tables[k]);
            }
        }
        let taken = if decoder.state.index == 0 {
            decoder.dc_step(symbol)
        } else {
            decoder.ac_step(symbol, units)
        };
        if !taken {
            break ;
        }
    }
    rewind(segments);
    proof {
        assert(segments@.huffman_tables =~= rewound(headers).huffman_tables);
    }
    decoder.blocks
}

} // verus!
