//! The reader of single bits over an entropy-coded span, and the binary code
//! trees that turn bits into symbols.

use vstd::arithmetic::power2::{lemma2_to64, lemma_pow2_pos, lemma_pow2_unfold, pow2};
use vstd::bits::{lemma_u16_shr_is_div, lemma_u32_shr_is_div};
use vstd::prelude::*;

verus! {

/// Why decoding of an entropy-coded span stopped short.
#[derive(Clone, Copy, Debug, PartialEq, Eq)]
pub enum DecodeError {
    /// The code tree has no child for the bit that was read.
    TreeDecodeFailure,
    /// The span ended, or a marker was reached, in the middle of a value.
    UnexpectedEndOfStream,
}

/// Mathematical state of a bit reader: the span and the place of the next bit.
pub struct BitCursor {
    /// The bytes of the span.
    pub data: Seq<u8>,
    /// Index of the byte that holds the next bit.
    pub byte: int,
    /// Number of bits of that byte which are still unread, from 8 down to 1.
    pub bit: int,
}

/// Bit `k` of `byte`, counted from the least significant bit.
pub open spec fn bit_of(byte: u8, k: u8) -> u8 {
    (byte >> k) & 1
}

impl BitCursor {
    /// The cursor lies within its span, at the start of a byte or inside one.
    pub open spec fn wf(self) -> bool {
        &&& 0 <= self.byte <= self.data.len()
        &&& 1 <= self.bit <= 8
        &&& self.byte == self.data.len() ==> self.bit == 8
    }

    /// Number of bits of the span that lie behind the cursor.
    pub open spec fn bits_left(self) -> int {
        8 * self.data.len() - self.position()
    }

    /// All bytes of the span have been passed.
    pub open spec fn exhausted(self) -> bool {
        self.byte >= self.data.len()
    }

    /// The current byte is `0xFF` and no stuffed `0x00` follows it.
    pub open spec fn at_marker(self) -> bool {
        &&& 0 <= self.byte < self.data.len()
        &&& self.data[self.byte] == 0xFF
        &&& !(self.byte + 1 < self.data.len() && self.data[self.byte + 1] == 0x00)
    }

    /// The current byte is a `0x00` stuffed after a `0xFF`.
    pub open spec fn at_stuffing(self) -> bool {
        &&& 0 < self.byte < self.data.len()
        &&& self.data[self.byte] == 0x00
        &&& self.data[self.byte - 1] == 0xFF
    }

    /// The cursor once a stuffed byte under it has been stepped over.
    pub open spec fn unstuffed(self) -> BitCursor {
        if self.at_stuffing() {
            BitCursor { data: self.data, byte: self.byte + 1, bit: 8 }
        } else {
            self
        }
    }

    /// The next bit and the cursor behind it. There is none where the span
    /// is exhausted or the byte under the cursor starts a marker. Otherwise a
    /// stuffed byte under the cursor is stepped over, and the bit comes from
    /// the byte behind it; there is none if the span ends with the stuffed
    /// byte.
    pub open spec fn next_bit(self) -> Option<(u8, BitCursor)> {
        if self.exhausted() || self.at_marker() || self.unstuffed().exhausted() {
            None
        } else {
            let c = self.unstuffed();
            let value = bit_of(c.data[c.byte], (c.bit - 1) as u8);
            if c.bit == 1 {
                Some((value, BitCursor { data: c.data, byte: c.byte + 1, bit: 8 }))
            } else {
                Some((value, BitCursor { data: c.data, byte: c.byte, bit: c.bit - 1 }))
            }
        }
    }

    /// Number of bits of the span that lie in front of the cursor, those of
    /// stuffed bytes that were stepped over included.
    pub open spec fn position(self) -> int {
        8 * self.byte + 8 - self.bit
    }

    /// The unsigned value of the next `n` bits, most significant first, and
    /// the cursor behind them. Where fewer than `n` bits can be read the
    /// value is `None` and the cursor rests where reading stopped.
    pub open spec fn read_bits(self, n: nat) -> (Option<int>, BitCursor)
        decreases n,
    {
        if n == 0 {
            (Some(0), self)
        } else {
            match self.read_bits((n - 1) as nat) {
                (None, cursor) => (None, cursor),
                (Some(high), cursor) => match cursor.next_bit() {
                    None => (None, cursor),
                    Some((low, behind)) => (Some(2 * high + low), behind),
                },
            }
        }
    }
}

/// The signed coefficient that `category` magnitude bits of value `raw`
/// stand for: the lower half of the range folds onto the negative numbers.
pub open spec fn magnitude(raw: int, category: nat) -> int {
    if category == 0 {
        0
    } else if raw < pow2((category - 1) as nat) {
        raw - (pow2(category) - 1)
    } else {
        raw
    }
}

/// A single bit of a byte is 0 or 1.
pub proof fn lemma_bit_of_is_bit()
    ensures
        forall|byte: u8, k: u8| #[trigger] bit_of(byte, k) <= 1,
{
    assert forall|byte: u8, k: u8| #[trigger] bit_of(byte, k) <= 1 by {
        assert((byte >> k) & 1 <= 1) by (bit_vector);
    }
}

/// Powers of two grow with the exponent.
pub proof fn lemma_pow2_monotonic(k: nat, n: nat)
    requires
        k <= n,
    ensures
        0 < pow2(k) <= pow2(n),
    decreases n,
{
    lemma_pow2_pos(k);
    if k < n {
        lemma_pow2_unfold(n);
        lemma_pow2_monotonic(k, (n - 1) as nat);
    }
}

/// Once a read has stopped short, asking for more bits stops at the same place.
proof fn lemma_read_bits_stuck(cursor: BitCursor, k: nat, n: nat)
    requires
        k <= n,
        cursor.read_bits(k).0.is_none(),
    ensures
        cursor.read_bits(n) == cursor.read_bits(k),
    decreases n,
{
    if k < n {
        lemma_read_bits_stuck(cursor, k, (n - 1) as nat);
    }
}

/// In front of a marker no bit is read, wherever in the byte the cursor
/// stands.
pub proof fn lemma_marker_ends(cursor: BitCursor)
    requires
        cursor.at_marker(),
    ensures
        cursor.next_bit().is_none(),
{
}

/// Once no bit can be read, none can be read ever after: any number of
/// further reads fails and leaves the cursor where it is.
pub proof fn lemma_end_is_final(cursor: BitCursor, n: nat)
    requires
        cursor.next_bit().is_none(),
        n >= 1,
    ensures
        cursor.read_bits(n) == (None::<int>, cursor),
    decreases n,
{
    if n > 1 {
        lemma_end_is_final(cursor, (n - 1) as nat);
    } else {
        assert(cursor.read_bits(0) == (Some(0int), cursor));
    }
}

/// A reader of single bits, most significant first, over an entropy-coded span.
pub struct BitStream<'a> {
    data: &'a [u8],
    curr_byte: usize,
    curr_bit: u8,
}

impl<'a> View for BitStream<'a> {
    type V = BitCursor;

    closed spec fn view(&self) -> BitCursor {
        BitCursor { data: self.data@, byte: self.curr_byte as int, bit: self.curr_bit as int }
    }
}

impl<'a> BitStream<'a> {
    /// A reader placed on the first bit of `bytes`.
    pub fn new(bytes: &'a [u8]) -> (stream: BitStream<'a>)
        ensures
            stream@ == (BitCursor { data: bytes@, byte: 0, bit: 8 }),
            stream@.wf(),
    {
        BitStream { data: bytes, curr_byte: 0, curr_bit: 8 }
    }

    /// Reads one bit, most significant first. Returns `None` and stays in
    /// place at the end of the span and in front of a marker, which is a
    /// `0xFF` that no `0x00` follows. A `0x00` that follows a `0xFF` is
    /// stuffing and holds no bits.
    pub fn next_bit(&mut self) -> (bit: Option<u8>)
        requires
            old(self)@.wf(),
        ensures
            final(self)@.wf(),
            match old(self)@.next_bit() {
                Some((value, cursor)) => bit == Some(value) && final(self)@ == cursor,
                None => bit.is_none() && final(self)@ == old(self)@,
            },
    {
        let len = self.data.len();
        if self.curr_byte >= len {
            return None;
        }
        let i = self.curr_byte;
        if self.data[i] == 0xFF && !(i + 1 < len && self.data[i + 1] == 0x00) {
            return None;
        }
        let mut byte_at = i;
        let mut bits_left = self.curr_bit;
        if i > 0 && self.data[i] == 0x00 && self.data[i - 1] == 0xFF {
            byte_at = i + 1;
            bits_left = 8;
        }
        if byte_at >= len {
            return None;
        }
        let byte = self.data[byte_at];
        bits_left = bits_left - 1;
        let value = (byte >> bits_left) & 1;
        if bits_left == 0 {
            self.curr_bit = 8;
            self.curr_byte = byte_at + 1;
        } else {
            self.curr_bit = bits_left;
            self.curr_byte = byte_at;
        }
        Some(value)
    }

    /// Reads `category` magnitude bits and returns the coefficient they
    /// stand for. Fails, leaving the reader where it stopped, if the span
    /// ends or a marker is reached before all the bits were read.
    pub fn get_coeff(&mut self, category: u8) -> (coeff: Result<i16, DecodeError>)
        requires
            old(self)@.wf(),
            category <= 15,
        ensures
            final(self)@.wf(),
            final(self)@ == old(self)@.read_bits(category as nat).1,
            match old(self)@.read_bits(category as nat).0 {
                Some(raw) => coeff == Ok::<i16, DecodeError>(magnitude(raw, category as nat) as i16)
                    && -pow2(category as nat) < magnitude(raw, category as nat) < pow2(category as nat),
                None => coeff == Err::<i16, DecodeError>(DecodeError::UnexpectedEndOfStream),
            },
    {
        let mut raw: i32 = 0;
        let mut limit: i32 = 1;
        let mut half: i32 = 0;
        let mut k: u8 = 0;
        proof {
            lemma2_to64();
        }
        while k < category
            invariant
                k <= category <= 15,
                self@.wf(),
                old(self)@.read_bits(k as nat) == (Some(raw as int), self@),
                0 <= raw < limit,
                limit == pow2(k as nat),
                k > 0 ==> half == pow2((k - 1) as nat),
                limit <= 0x8000,
            decreases category - k,
        {
            proof {
                lemma2_to64();
                lemma_pow2_unfold((k + 1) as nat);
                lemma_pow2_monotonic((k + 1) as nat, 15);
            }
            match self.next_bit() {
                None => {
                    proof {
                        lemma_read_bits_stuck(old(self)@, (k + 1) as nat, category as nat);
                    }
                    return Err(DecodeError::UnexpectedEndOfStream);
                },
                Some(bit) => {
                    assert(bit <= 1) by {
                        lemma_bit_of_is_bit();
                    }
                    raw = 2 * raw + bit as i32;
                },
            }
            half = limit;
            limit = 2 * limit;
            k = k + 1;
        }
        if category == 0 {
            Ok(0)
        } else if raw < half {
            Ok((raw - (limit - 1)) as i16)
        } else {
            Ok(raw as i16)
        }
    }

    /// Number of bits of the span that the reader has consumed: those that
    /// lie in front of it, the bits of stuffed bytes that were stepped over
    /// included.
    pub fn get_pos(&self) -> (pos: usize)
        requires
            self@.wf(),
            self@.position() <= usize::MAX,
        ensures
            pos == self@.position(),
    {
        8 * self.curr_byte + (8 - self.curr_bit) as usize
    }
}

/// One node of a code tree: the symbol it stands for, if it ends a codeword,
/// and the places of its two children in the tree's node arena.
#[derive(Clone, Copy, Debug)]
pub struct Node {
    symbol: Option<u8>,
    left: Option<usize>,
    right: Option<usize>,
}

impl Node {
    /// The symbol stored at this node.
    pub closed spec fn symbol(self) -> Option<u8> {
        self.symbol
    }

    /// The arena index of the child reached by `bit`: the right child for a
    /// one, the left child for a zero.
    pub closed spec fn child(self, bit: bool) -> Option<usize> {
        if bit {
            self.right
        } else {
            self.left
        }
    }

    /// A node without symbol and without children.
    pub fn new() -> (node: Node)
        ensures
            node.symbol().is_none(),
            forall|bit: bool| node.child(bit).is_none(),
    {
        Node { symbol: None, left: None, right: None }
    }
}

/// Mathematical content of a code tree: its nodes, each named by the bits
/// that lead to it from the root, and the place of the decoding cursor.
pub struct Trie {
    /// The symbol, if any, at each node. The domain holds the empty path
    /// (the root) and is closed under taking prefixes.
    pub nodes: Map<Seq<bool>, Option<u8>>,
    /// The path from the root to the node under the cursor.
    pub cursor: Seq<bool>,
}

impl Trie {
    /// The tree that has a root only, with the cursor on it.
    pub open spec fn empty() -> Trie {
        Trie { nodes: Map::empty().insert(Seq::empty(), None), cursor: Seq::empty() }
    }

    /// The tree after `word` was entered for `symbol`: every prefix of
    /// `word` is a node, `word` itself carries `symbol`, and every other node
    /// keeps what it had.
    pub open spec fn insert(self, word: Seq<bool>, symbol: u8) -> Trie {
        Trie {
            nodes: Map::new(
                |path: Seq<bool>| self.nodes.dom().contains(path) || path.is_prefix_of(word),
                |path: Seq<bool>|
                    if path == word {
                        Some(symbol)
                    } else if self.nodes.dom().contains(path) {
                        self.nodes[path]
                    } else {
                        None
                    },
            ),
            cursor: self.cursor,
        }
    }

    /// One decoding step on `bit`. Without a child for `bit` the step fails
    /// and the cursor stays. A child that carries a symbol emits it and sends
    /// the cursor back to the root. Any other child becomes the cursor.
    pub open spec fn step(self, bit: bool) -> (Result<Option<u8>, DecodeError>, Trie) {
        let child = self.cursor.push(bit);
        if !self.nodes.dom().contains(child) {
            (Err(DecodeError::TreeDecodeFailure), self)
        } else {
            match self.nodes[child] {
                Some(symbol) => (Ok(Some(symbol)), Trie { nodes: self.nodes, cursor: Seq::empty() }),
                None => (Ok(None), Trie { nodes: self.nodes, cursor: child }),
            }
        }
    }
}

/// Bit `k` of `code`, counted from the least significant bit.
pub open spec fn code_bit(code: nat, k: nat) -> bool {
    (code / pow2(k)) % 2 == 1
}

/// The `length` low bits of `code` as a codeword, most significant bit first.
pub open spec fn codeword(code: nat, length: nat) -> Seq<bool> {
    Seq::new(length, |j: int| code_bit(code, (length - 1 - j) as nat))
}

/// The node at `path` is linked to its child for `bit` exactly where the
/// longer path is a node too.
spec fn linked(nodes: Seq<Node>, index: Map<Seq<bool>, int>, path: Seq<bool>, bit: bool) -> bool {
    match nodes[index[path]].child(bit) {
        Some(child) => index.dom().contains(path.push(bit)) && index[path.push(bit)] == child,
        None => !index.dom().contains(path.push(bit)),
    }
}

/// The nodes of a tree after every prefix of `word` was made a node.
spec fn extended(nodes: Map<Seq<bool>, Option<u8>>, word: Seq<bool>) -> Map<
    Seq<bool>,
    Option<u8>,
> {
    Map::new(
        |path: Seq<bool>| nodes.dom().contains(path) || path.is_prefix_of(word),
        |path: Seq<bool>|
            if nodes.dom().contains(path) {
                nodes[path]
            } else {
                None
            },
    )
}

/// The prefixes of a path that grew by one bit are those of the path, and the
/// longer path itself.
proof fn lemma_prefix_of_push(path: Seq<bool>, bit: bool)
    ensures
        forall|p: Seq<bool>| #[trigger]
            p.is_prefix_of(path.push(bit)) <==> p.is_prefix_of(path) || p == path.push(bit),
{
    let longer = path.push(bit);
    assert forall|p: Seq<bool>| #[trigger]
        p.is_prefix_of(longer) <==> p.is_prefix_of(path) || p == longer by {
        if p.is_prefix_of(longer) {
            if p.len() == longer.len() {
                assert(longer.subrange(0, p.len() as int) =~= longer);
            } else {
                assert(longer.subrange(0, p.len() as int) =~= path.subrange(0, p.len() as int));
            }
        }
        if p.is_prefix_of(path) {
            assert(longer.subrange(0, p.len() as int) =~= path.subrange(0, p.len() as int));
        }
        if p == longer {
            assert(longer.subrange(0, p.len() as int) =~= longer);
        }
    }
}

/// Two paths that grew by one bit are equal only if they were equal and grew
/// by the same bit.
proof fn lemma_push_injective(p: Seq<bool>, b: bool, q: Seq<bool>, c: bool)
    ensures
        p.push(b) == q.push(c) ==> p == q && b == c,
{
    if p.push(b) == q.push(c) {
        assert(p.push(b).drop_last() =~= p);
        assert(q.push(c).drop_last() =~= q);
        assert(p.push(b).last() == b);
        assert(q.push(c).last() == c);
    }
}

/// The bit that shifting and masking takes out of a code is the bit of the
/// code's value at that place.
proof fn lemma_shift_is_code_bit(code: u16, k: u16)
    requires
        k < 16,
    ensures
        ((code >> k) & 1 == 1) == code_bit(code as nat, k as nat),
        (code >> k) & 1 <= 1,
{
    lemma_u16_shr_is_div(code, k);
    let shifted = code >> k;
    assert(shifted & 1 == shifted % 2) by (bit_vector);
}

/// A bit below the sixteenth depends on the low 16 bits of a code only.
proof fn lemma_code_bit_low_bits(code: u32, k: u32)
    requires
        k < 16,
    ensures
        code_bit((code & 0xFFFF) as nat, k as nat) == code_bit(code as nat, k as nat),
{
    lemma_u32_shr_is_div(code, k);
    lemma_u32_shr_is_div(code & 0xFFFF, k);
    assert(((code & 0xFFFF) >> k) % 2 == (code >> k) % 2) by (bit_vector)
        requires
            k < 16,
    ;
}

/// A codeword of at most 16 bits depends on the low 16 bits of its code only.
pub proof fn lemma_codeword_low_bits(code: u32, length: nat)
    requires
        length <= 16,
    ensures
        codeword((code & 0xFFFF) as nat, length) == codeword(code as nat, length),
        code & 0xFFFF <= 0xFFFF,
{
    let low = code & 0xFFFF;
    assert(code & 0xFFFF <= 0xFFFF) by (bit_vector);
    assert forall|j: int| 0 <= j < length implies #[trigger] codeword(low as nat, length)[j]
        == codeword(code as nat, length)[j] by {
        lemma_code_bit_low_bits(code, (length - 1 - j) as u32);
    }
    assert(codeword(low as nat, length) =~= codeword(code as nat, length));
}

/// A binary code tree that decodes one bit at a time.
pub struct Tree {
    nodes: Vec<Node>,
    curr_node: usize,
    index: Ghost<Map<Seq<bool>, int>>,
    cursor: Ghost<Seq<bool>>,
}

impl View for Tree {
    type V = Trie;

    closed spec fn view(&self) -> Trie {
        Trie {
            nodes: Map::new(
                |path: Seq<bool>| self.index@.dom().contains(path),
                |path: Seq<bool>| self.nodes@[self.index@[path]].symbol,
            ),
            cursor: self.cursor@,
        }
    }
}

impl Tree {
    /// The arena and the paths of its nodes agree: the tree can be used.
    pub closed spec fn wf(&self) -> bool {
        &&& self.nodes@.len() >= 1
        &&& self.index@.dom().contains(Seq::empty())
        &&& self.index@[Seq::empty()] == 0
        &&& forall|path: Seq<bool>| #[trigger]
            self.index@.dom().contains(path) ==> 0 <= self.index@[path] < self.nodes@.len()
        &&& forall|p: Seq<bool>, q: Seq<bool>|
            #![trigger self.index@[p], self.index@[q]]
            self.index@.dom().contains(p) && self.index@.dom().contains(q) && self.index@[p]
                == self.index@[q] ==> p == q
        &&& forall|path: Seq<bool>, bit: bool|
            self.index@.dom().contains(path) ==> #[trigger] linked(self.nodes@, self.index@, path, bit)
        &&& forall|path: Seq<bool>| #[trigger]
            self.index@.dom().contains(path) && path.len() > 0 ==> self.index@.dom().contains(
                path.drop_last(),
            )
        &&& self.index@.dom().contains(self.cursor@)
        &&& self.index@[self.cursor@] == self.curr_node
    }

    /// A tree that has a root only.
    pub fn new() -> (tree: Tree)
        ensures
            tree.wf(),
            tree@ == Trie::empty(),
    {
        let mut nodes = Vec::new();
        nodes.push(Node::new());
        let tree = Tree {
            nodes,
            curr_node: 0,
            index: Ghost(Map::empty().insert(Seq::empty(), 0int)),
            cursor: Ghost(Seq::empty()),
        };
        proof {
            assert(tree@.nodes =~= Trie::empty().nodes);
            assert forall|path: Seq<bool>, bit: bool|
                tree.index@.dom().contains(path) implies #[trigger] linked(tree.nodes@, tree.index@, path, bit) by {
                assert(path.push(bit).len() == path.len() + 1);
            }
        }
        tree
    }

    /// Enters the codeword made of the `length` low bits of `code`, most
    /// significant first, and stores `symbol` at its end. Nodes that are
    /// missing on the way are created; the cursor stays where it is.
    pub fn insert_code(&mut self, code: u16, length: u8, symbol: u8)
        requires
            old(self).wf(),
            length <= 16,
        ensures
            final(self).wf(),
            final(self)@ == old(self)@.insert(codeword(code as nat, length as nat), symbol),
    {
        let ghost word = codeword(code as nat, length as nat);
        let ghost mut path: Seq<bool> = Seq::empty();
        let mut node: usize = 0;
        let mut i: u8 = length;
        proof {
            assert(path =~= word.take(0));
            assert forall|p: Seq<bool>| p.is_prefix_of(path) implies self.index@.dom().contains(
                p,
            ) by {
                assert(p =~= Seq::<bool>::empty());
            }
            assert(self@.nodes =~= extended(old(self)@.nodes, path));
        }
        while i > 0
            invariant
                i <= length <= 16,
                word == codeword(code as nat, length as nat),
                self.wf(),
                path == word.take(length - i),
                self.index@.dom().contains(path),
                self.index@[path] == node,
                self.cursor@ == old(self).cursor@,
                self@.nodes == extended(old(self)@.nodes, path),
            decreases i,
        {
            i = i - 1;
            let bit = (code >> (i as u16)) & 1;
            let ghost longer = path.push(bit == 1);
            let ghost before = *self;
            proof {
                lemma_shift_is_code_bit(code, i as u16);
                assert(longer =~= word.take(length - i));
                lemma_prefix_of_push(path, bit == 1);
                assert(linked(self.nodes@, self.index@, path, bit == 1));
            }
            let here = self.nodes[node];
            let next = if bit == 0 {
                here.left
            } else {
                here.right
            };
            match next {
                Some(child) => {
                    node = child;
                },
                None => {
                    let fresh = self.nodes.len();
                    self.nodes.push(Node::new());
                    if bit == 0 {
                        self.nodes[node].left = Some(fresh);
                    } else {
                        self.nodes[node].right = Some(fresh);
                    }
                    self.index = Ghost(self.index@.insert(longer, fresh as int));
                    node = fresh;
                    proof {
                        assert forall|p: Seq<bool>, b: bool|
                            self.index@.dom().contains(p) implies #[trigger] linked(
                            self.nodes@,
                            self.index@,
                            p,
                            b,
                        ) by {
                            lemma_push_injective(p, b, path, bit == 1);
                            if p == longer {
                                assert(p.push(b).drop_last() =~= p);
                                assert(p.push(b).len() == p.len() + 1);
                            } else {
                                assert(linked(before.nodes@, before.index@, p, b));
                            }
                        }
                        assert(longer.drop_last() =~= path);
                    }
                },
            }
            proof {
                let start = old(self)@.nodes;
                assert forall|p: Seq<bool>|
                    self@.nodes.dom().contains(p) <==> #[trigger] extended(
                        start,
                        longer,
                    ).dom().contains(p) by {
                    assert(before@.nodes.dom().contains(p) <==> extended(
                        start,
                        path,
                    ).dom().contains(p));
                }
                assert forall|p: Seq<bool>| self@.nodes.dom().contains(p) implies #[trigger]
                    self@.nodes[p] == extended(start, longer)[p] by {
                    if before@.nodes.dom().contains(p) {
                        assert(before@.nodes[p] == extended(start, path)[p]);
                    } else {
                        assert(!extended(start, path).dom().contains(p));
                    }
                }
                path = longer;
                assert(self@.nodes =~= extended(start, path));
            }
        }
        proof {
            assert(path =~= word);
        }
        let ghost before = *self;
        self.nodes[node].symbol = Some(symbol);
        proof {
            assert forall|p: Seq<bool>, b: bool|
                self.index@.dom().contains(p) implies #[trigger] linked(
                self.nodes@,
                self.index@,
                p,
                b,
            ) by {
                assert(linked(before.nodes@, before.index@, p, b));
            }
            let start = old(self)@.nodes;
            let target = old(self)@.insert(word, symbol).nodes;
            assert forall|p: Seq<bool>|
                self@.nodes.dom().contains(p) <==> #[trigger] target.dom().contains(p) by {
                assert(before@.nodes.dom().contains(p) <==> extended(start, word).dom().contains(
                    p,
                ));
            }
            assert forall|p: Seq<bool>| self@.nodes.dom().contains(p) implies #[trigger]
                self@.nodes[p] == target[p] by {
                assert(before@.nodes[p] == extended(start, word)[p]);
            }
            assert(self@.nodes =~= target);
        }
    }

    /// Puts the cursor back on the root.
    pub fn reset(&mut self)
        requires
            old(self).wf(),
        ensures
            final(self).wf(),
            final(self)@ == (Trie { nodes: old(self)@.nodes, cursor: Seq::empty() }),
    {
        self.curr_node = 0;
        self.cursor = Ghost(Seq::empty());
        proof {
            assert(self@.nodes =~= old(self)@.nodes);
        }
    }

    /// Moves the cursor one step along `bit`, which is 0 or 1. Returns the
    /// symbol of the node reached, if it has one, and then puts the cursor
    /// back on the root. Fails, with the cursor unmoved, where the tree has no
    /// such child; no bit other than 0 and 1 names a child.
    pub fn forward(&mut self, bit: u8) -> (step: Result<Option<u8>, DecodeError>)
        requires
            old(self).wf(),
        ensures
            final(self).wf(),
            bit > 1 ==> step == Err::<Option<u8>, DecodeError>(DecodeError::TreeDecodeFailure)
                && final(self)@ == old(self)@,
            bit <= 1 ==> (step, final(self)@) == old(self)@.step(bit == 1),
    {
        if bit > 1 {
            return Err(DecodeError::TreeDecodeFailure);
        }
        let node = self.nodes[self.curr_node];
        let next = if bit == 0 {
            node.left
        } else {
            node.right
        };
        assert(linked(self.nodes@, self.index@, self.cursor@, bit == 1));
        match next {
            None => Err(DecodeError::TreeDecodeFailure),
            Some(child) => {
                let ghost path = self.cursor@.push(bit == 1);
                match self.nodes[child].symbol {
                    Some(symbol) => {
                        self.curr_node = 0;
                        self.cursor = Ghost(Seq::empty());
                        assert(self@.nodes =~= old(self)@.nodes);
                        Ok(Some(symbol))
                    },
                    None => {
                        self.curr_node = child;
                        self.cursor = Ghost(path);
                        assert(self@.nodes =~= old(self)@.nodes);
                        Ok(None)
                    },
                }
            },
        }
    }
}

} // verus!
