use vstd::prelude::*;
use vstd::string::StrSliceExecFns;
use vstd::string::StringExecFns;

verus! {

// ---------------------------------------------------------------------------
// Text helpers
// ---------------------------------------------------------------------------

/// The characters with the Unicode `White_Space` property, as documented for
/// `char::is_whitespace`.
pub open spec fn is_whitespace_char(c: char) -> bool {
    ||| c == ' '
    ||| c == '\t'
    ||| c == '\n'
    ||| c == '\u{b}'
    ||| c == '\u{c}'
    ||| c == '\r'
    ||| c == '\u{85}'
    ||| c == '\u{a0}'
    ||| c == '\u{1680}'
    ||| ('\u{2000}' <= c && c <= '\u{200a}')
    ||| c == '\u{2028}'
    ||| c == '\u{2029}'
    ||| c == '\u{202f}'
    ||| c == '\u{205f}'
    ||| c == '\u{3000}'
}

/// `s` with every whitespace character discarded.
pub open spec fn strip_whitespace(s: Seq<char>) -> Seq<char>
    decreases s.len(),
{
    if s.len() == 0 {
        Seq::empty()
    } else {
        strip_whitespace(s.drop_last()) + if is_whitespace_char(s.last()) {
            Seq::<char>::empty()
        } else {
            seq![s.last()]
        }
    }
}

fn char_is_whitespace(c: char) -> (r: bool)
    ensures
        r == is_whitespace_char(c),
{
    c == ' ' || c == '\t' || c == '\n' || c == '\u{b}' || c == '\u{c}' || c == '\r' || c == '\u{85}'
        || c == '\u{a0}' || c == '\u{1680}' || ('\u{2000}' <= c && c <= '\u{200a}') || c
        == '\u{2028}' || c == '\u{2029}' || c == '\u{202f}' || c == '\u{205f}' || c == '\u{3000}'
}

/// The characters of `s`, with whitespace discarded.
fn strip_str(s: &str) -> (r: Vec<char>)
    ensures
        r@ == strip_whitespace(s@),
{
    let n = s.unicode_len();
    let mut stripped: Vec<char> = Vec::new();
    for i in 0..n
        invariant
            n == s@.len(),
            stripped@ == strip_whitespace(s@.take(i as int)),
    {
        let c = s.get_char(i);
        if !char_is_whitespace(c) {
            stripped.push(c);
        }
        proof {
            assert(s@.take(i + 1).drop_last() =~= s@.take(i as int));
            assert(s@.take(i + 1).last() == s@[i as int]);
            assert(stripped@ =~= strip_whitespace(s@.take(i + 1)));
        }
    }
    proof {
        assert(s@.take(n as int) =~= s@);
    }
    stripped
}

/// The prefix mask over the first `k` cells of the text `t`: the cells whose
/// symbol equals `mark`.
pub open spec fn mark_mask(t: Seq<char>, mark: char, k: int) -> u16
    decreases k,
{
    if k <= 0 {
        0u16
    } else {
        mark_mask(t, mark, k - 1) | if t[k - 1] == mark {
            1u16 << ((9 - k) as u16)
        } else {
            0u16
        }
    }
}

/// A move-text digit.
pub open spec fn is_move_digit(c: char) -> bool {
    c == '0' || c == '1' || c == '2'
}

/// Value of a move-text digit.
pub open spec fn digit_of(c: char) -> int {
    if c == '0' {
        0
    } else if c == '1' {
        1
    } else {
        2
    }
}

/// A position-text symbol: one of the two marks or the empty cell.
pub open spec fn is_position_symbol(c: char) -> bool {
    c == 'X' || c == 'O' || c == '_'
}

/// Whitespace-free move text: two digits, each in [0, 2].
pub open spec fn valid_move_text(t: Seq<char>) -> bool {
    t.len() == 2 && is_move_digit(t[0]) && is_move_digit(t[1])
}

/// Whitespace-free position text: nine symbols, each a mark or '_'.
pub open spec fn valid_position_text(t: Seq<char>) -> bool {
    t.len() == 9 && forall|k: int| 0 <= k < 9 ==> is_position_symbol(#[trigger] t[k])
}

/// Mask text: nine symbols, each '0' or '1'.
pub open spec fn valid_mask_text(t: Seq<char>) -> bool {
    t.len() == 9 && forall|k: int| 0 <= k < 9 ==> (#[trigger] t[k]) == '0' || t[k] == '1'
}

proof fn lemma_mark_mask_wf(t: Seq<char>, mark: char, k: int)
    requires
        k <= 9,
    ensures
        mark_mask(t, mark, k) < 512,
    decreases k,
{
    if k <= 0 {
    } else {
        lemma_mark_mask_wf(t, mark, k - 1);
        let m = mark_mask(t, mark, k - 1);
        if t[k - 1] == mark {
            lemma_single_bit_bound((9 - k) as u16);
            lemma_or_bound(m, 1u16 << ((9 - k) as u16));
        } else {
            assert(m | 0u16 == m) by (bit_vector);
        }
    }
}

proof fn lemma_zero_bit(i: u16)
    requires
        i < 16,
    ensures
        !bit_at(0u16, i as int),
{
    assert(i < 16 ==> (0u16 >> i) & 1u16 == 0u16) by (bit_vector);
}

/// The prefix mask over `k` cells only uses the bits from position `9 - k` up.
proof fn lemma_mark_mask_low_bits(t: Seq<char>, mark: char, k: int)
    requires
        0 <= k <= 9,
    ensures
        forall|i: u16| i < 9 - k ==> !bit_at(mark_mask(t, mark, k), i as int),
    decreases k,
{
    if k == 0 {
        assert forall|i: u16| i < 9 - k implies !bit_at(mark_mask(t, mark, k), i as int) by {
            lemma_zero_bit(i);
        }
    } else {
        lemma_mark_mask_low_bits(t, mark, k - 1);
        let prev = mark_mask(t, mark, k - 1);
        let s = (9 - k) as u16;
        assert forall|i: u16| i < 9 - k implies !bit_at(mark_mask(t, mark, k), i as int) by {
            if t[k - 1] == mark {
                lemma_or_bit(prev, 1u16 << s, i);
                lemma_single_bit(s, i);
            } else {
                lemma_or_zero(prev);
            }
        }
    }
}

/// The mask of one mark's cells and the mask of the other's never overlap.
proof fn lemma_mark_masks_disjoint(t: Seq<char>, k: int)
    requires
        0 <= k <= 9,
    ensures
        mark_mask(t, 'X', k) & mark_mask(t, 'O', k) == 0,
    decreases k,
{
    if k == 0 {
        assert(0u16 & 0u16 == 0u16) by (bit_vector);
    } else {
        lemma_mark_masks_disjoint(t, k - 1);
        lemma_mark_mask_low_bits(t, 'X', k - 1);
        lemma_mark_mask_low_bits(t, 'O', k - 1);
        let mx = mark_mask(t, 'X', k - 1);
        let mo = mark_mask(t, 'O', k - 1);
        let s = (9 - k) as u16;
        lemma_disjoint_after_set(mx, mo, s);
        if t[k - 1] == 'X' {
            lemma_or_zero(mo);
        } else if t[k - 1] == 'O' {
            lemma_or_zero(mx);
        } else {
            lemma_or_zero(mx);
            lemma_or_zero(mo);
        }
    }
}

// ---------------------------------------------------------------------------
// Terminal highlighting
// ---------------------------------------------------------------------------

/// The ANSI escape code that switches the foreground colour to green.
pub open spec fn green_prefix_text() -> Seq<char> {
    "\u{1b}[32m"@
}

/// The ANSI escape code that resets all styles.
pub open spec fn green_suffix_text() -> Seq<char> {
    "\u{1b}[0m"@
}

/// Relies on ansi_term's `Colour::Green.prefix()`: displaying it yields the
/// ANSI code for a green foreground, `ESC [ 3 2 m`.
#[verifier::external_body]
fn green_prefix() -> (r: String)
    ensures
        r@ == green_prefix_text(),
{
    ansi_term::Colour::Green.prefix().to_string()
}

/// Relies on ansi_term's `Colour::Green.suffix()`: displaying it yields the
/// ANSI reset code, `ESC [ 0 m`.
#[verifier::external_body]
fn green_suffix() -> (r: String)
    ensures
        r@ == green_suffix_text(),
{
    ansi_term::Colour::Green.suffix().to_string()
}

// ---------------------------------------------------------------------------
// Errors
// ---------------------------------------------------------------------------

/// The failure modes of this library. Every error is returned as a value;
/// no verified function of this crate panics.
#[derive(Debug, Clone, Copy, PartialEq, Eq, Structural)]
pub enum GameError {
    /// Malformed position, bitboard or move text.
    ParseError,
    /// A move that violates turn order or targets an occupied cell.
    IllegalMoveError,
    /// A requested child does not correspond to any legal move of a node.
    NoSuchChildError,
    /// A move or evaluation query against a position with no active player.
    GameOverError,
}

// ---------------------------------------------------------------------------
// Bit-level model
//
// A 3-by-3 grid is stored in the low nine bits of a u16. The cell in `row`,
// `col` (row-major, each in [0, 2]) is held by bit `8 - (3 * row + col)`,
// so the first cell is the highest of the nine bits.
// ---------------------------------------------------------------------------

/// Bit position that stores the cell `(row, col)`.
pub open spec fn bit_index(row: int, col: int) -> int {
    8 - (3 * row + col)
}

/// Whether bit `i` of `b` is set.
pub open spec fn bit_at(b: u16, i: int) -> bool {
    (b >> (i as u16)) & 1u16 == 1u16
}

/// Number of set bits among the bits of `b` below position `k`.
pub open spec fn nbits(b: u16, k: int) -> int
    decreases k,
{
    if k <= 0 {
        0
    } else {
        nbits(b, k - 1) + if bit_at(b, k - 1) {
            1int
        } else {
            0int
        }
    }
}

/// Whether `b` covers one of the eight winning triples: three rows, three
/// columns and the two diagonals.
pub open spec fn spec_victory(b: u16) -> bool {
    ||| b & 0b111000000u16 == 0b111000000u16
    ||| b & 0b000111000u16 == 0b000111000u16
    ||| b & 0b000000111u16 == 0b000000111u16
    ||| b & 0b100100100u16 == 0b100100100u16
    ||| b & 0b010010010u16 == 0b010010010u16
    ||| b & 0b001001001u16 == 0b001001001u16
    ||| b & 0b100010001u16 == 0b100010001u16
    ||| b & 0b001010100u16 == 0b001010100u16
}

proof fn lemma_bit_test(b: u16, s: u16)
    requires
        s < 16,
    ensures
        (b & (1u16 << s) != 0) == bit_at(b, s as int),
{
    assert(s < 16 ==> ((b & (1u16 << s) != 0) == ((b >> s) & 1u16 == 1u16))) by (bit_vector);
}

proof fn lemma_or_bit(a: u16, b: u16, i: u16)
    requires
        i < 16,
    ensures
        bit_at(a | b, i as int) == (bit_at(a, i as int) || bit_at(b, i as int)),
{
    assert(i < 16 ==> ((((a | b) >> i) & 1u16 == 1u16) == (((a >> i) & 1u16 == 1u16) || ((b >> i)
        & 1u16 == 1u16)))) by (bit_vector);
}

proof fn lemma_set_bit(a: u16, s: u16, i: u16)
    requires
        s < 16,
        i < 16,
    ensures
        bit_at(a | (1u16 << s), s as int),
        i != s ==> bit_at(a | (1u16 << s), i as int) == bit_at(a, i as int),
{
    assert(s < 16 ==> (((a | (1u16 << s)) >> s) & 1u16 == 1u16)) by (bit_vector);
    assert(s < 16 && i < 16 && i != s ==> ((a | (1u16 << s)) >> i) & 1u16 == (a >> i)
        & 1u16) by (bit_vector);
}

proof fn lemma_or_bound(a: u16, b: u16)
    requires
        a < 512,
        b < 512,
    ensures
        (a | b) < 512,
{
    assert(a < 512 && b < 512 ==> (a | b) < 512) by (bit_vector);
}

proof fn lemma_single_bit_bound(s: u16)
    requires
        s < 9,
    ensures
        (1u16 << s) < 512,
{
    assert(s < 9 ==> (1u16 << s) < 512) by (bit_vector);
}

proof fn lemma_or_zero(a: u16)
    ensures
        a | 0u16 == a,
{
    assert(a | 0u16 == a) by (bit_vector);
}

proof fn lemma_single_bit(s: u16, i: u16)
    requires
        s < 16,
        i < 16,
    ensures
        bit_at(1u16 << s, i as int) == (i == s),
{
    assert(s < 16 && i < 16 ==> ((((1u16 << s) >> i) & 1u16 == 1u16) == (i == s))) by (bit_vector);
}

proof fn lemma_disjoint_after_set(x: u16, o: u16, s: u16)
    requires
        x & o == 0,
        s < 16,
    ensures
        !bit_at(o, s as int) ==> (x | (1u16 << s)) & o == 0,
        !bit_at(x, s as int) ==> x & (o | (1u16 << s)) == 0,
{
    assert(x & o == 0 && s < 16 && (o >> s) & 1u16 != 1u16 ==> ((x | (1u16 << s)) & o
        == 0)) by (bit_vector);
    assert(x & o == 0 && s < 16 && (x >> s) & 1u16 != 1u16 ==> (x & (o | (1u16 << s))
        == 0)) by (bit_vector);
}

proof fn lemma_all_bits_full(b: u16)
    requires
        b < 512,
        forall|i: int| 0 <= i < 9 ==> bit_at(b, i),
    ensures
        b == 511,
{
    assert(bit_at(b, 0));
    assert(bit_at(b, 1));
    assert(bit_at(b, 2));
    assert(bit_at(b, 3));
    assert(bit_at(b, 4));
    assert(bit_at(b, 5));
    assert(bit_at(b, 6));
    assert(bit_at(b, 7));
    assert(bit_at(b, 8));
    assert(b < 512 && (b >> 0u16) & 1u16 == 1u16 && (b >> 1u16) & 1u16 == 1u16 && (b >> 2u16)
        & 1u16 == 1u16 && (b >> 3u16) & 1u16 == 1u16 && (b >> 4u16) & 1u16 == 1u16 && (b >> 5u16)
        & 1u16 == 1u16 && (b >> 6u16) & 1u16 == 1u16 && (b >> 7u16) & 1u16 == 1u16 && (b >> 8u16)
        & 1u16 == 1u16 ==> b == 511) by (bit_vector);
}

pub proof fn lemma_nbits_bound(b: u16, k: int)
    ensures
        0 <= nbits(b, k) <= if k <= 0 {
            0int
        } else {
            k
        },
    decreases k,
{
    if k > 0 {
        lemma_nbits_bound(b, k - 1);
    }
}

proof fn lemma_nbits_set_rec(b: u16, s: u16, k: int)
    requires
        s < 9,
        k <= 16,
    ensures
        nbits(b | (1u16 << s), k) == nbits(b, k) + if !bit_at(b, s as int) && s < k {
            1int
        } else {
            0int
        },
    decreases k,
{
    if k > 0 {
        lemma_nbits_set_rec(b, s, k - 1);
        lemma_set_bit(b, s, (k - 1) as u16);
        if s == k - 1 && bit_at(b, s as int) {
            assert(bit_at(b | (1u16 << s), (k - 1) as int) == bit_at(b, (k - 1) as int));
        }
    }
}

/// Setting an unset bit below nine raises the popcount of the low nine bits
/// by exactly one.
proof fn lemma_nbits_set(b: u16, s: u16)
    requires
        s < 9,
        !bit_at(b, s as int),
    ensures
        nbits(b | (1u16 << s), 9) == nbits(b, 9) + 1,
{
    lemma_nbits_set_rec(b, s, 9);
}

proof fn lemma_nbits_full_rec(b: u16, k: int)
    requires
        nbits(b, k) == k,
    ensures
        forall|i: int| 0 <= i < k ==> bit_at(b, i),
    decreases k,
{
    if k > 0 {
        lemma_nbits_bound(b, k - 1);
        lemma_nbits_full_rec(b, k - 1);
    }
}

/// A board value that is not completely full has fewer than nine set bits.
proof fn lemma_nbits_below_nine(b: u16)
    requires
        b < 512,
        b != 511,
    ensures
        nbits(b, 9) < 9,
{
    lemma_nbits_bound(b, 9);
    if nbits(b, 9) == 9 {
        lemma_nbits_full_rec(b, 9);
        lemma_all_bits_full(b);
    }
}

// ---------------------------------------------------------------------------
// Bitboard
// ---------------------------------------------------------------------------

/// One player's mark-set, as a nine-bit occupancy mask.
#[derive(Copy, Clone, Debug, Default, PartialEq, Eq, Structural)]
pub struct Bitboard(pub u16);

impl Bitboard {
    /// Only the nine cell bits may be used.
    pub open spec fn wf(self) -> bool {
        self.0 < 512
    }

    pub fn empty() -> (r: Self)
        ensures
            r.0 == 0,
            r.wf(),
    {
        Bitboard(0)
    }

    pub fn is_empty(&self) -> (r: bool)
        ensures
            r == (self.0 == 0),
    {
        self.0 == 0
    }

    pub fn full() -> (r: Self)
        ensures
            r.0 == 511,
            r.wf(),
    {
        Bitboard(0b111111111)
    }

    pub fn is_victory(&self) -> (r: bool)
        ensures
            r == spec_victory(self.0),
    {
        if self.contains(Bitboard(0b111000000)) {
            return true;
        }
        if self.contains(Bitboard(0b000111000)) {
            return true;
        }
        if self.contains(Bitboard(0b000000111)) {
            return true;
        }
        if self.contains(Bitboard(0b100100100)) {
            return true;
        }
        if self.contains(Bitboard(0b010010010)) {
            return true;
        }
        if self.contains(Bitboard(0b001001001)) {
            return true;
        }
        if self.contains(Bitboard(0b100010001)) {
            return true;
        }
        if self.contains(Bitboard(0b001010100)) {
            return true;
        }
        return false;
    }

    /// Parses a nine-character mask text of '0' and '1' symbols, read in
    /// row-major cell order.
    pub fn from_binary(binary: &str) -> (r: Result<Self, GameError>)
        ensures
            valid_mask_text(binary@) ==> r == Ok::<Bitboard, GameError>(
                Bitboard(mark_mask(binary@, '1', 9)),
            ),
            !valid_mask_text(binary@) ==> r == Err::<Bitboard, GameError>(GameError::ParseError),
            r is Ok ==> r.unwrap().wf(),
    {
        let n = binary.unicode_len();
        if n != 9 {
            return Err(GameError::ParseError);
        }
        let mut bitboard = Bitboard::empty();
        let mut i: usize = 0;
        let mut j: usize = 0;
        for k in 0..9usize
            invariant
                n == binary@.len(),
                n == 9,
                3 * i + j == k,
                j < 3,
                i <= 3,
                bitboard.0 == mark_mask(binary@, '1', k as int),
                bitboard.wf(),
                forall|k2: int| 0 <= k2 < k ==> binary@[k2] == '0' || binary@[k2] == '1',
        {
            let c = binary.get_char(k);
            match c {
                '0' => (),
                '1' => bitboard.set(i, j),
                _ => {
                    proof {
                        assert(!(binary@[k as int] == '0' || binary@[k as int] == '1'));
                        assert(!valid_mask_text(binary@));
                    }
                    return Err(GameError::ParseError);
                },
            }
            proof {
                if c == '0' {
                    lemma_or_zero(mark_mask(binary@, '1', k as int));
                }
                assert(bitboard.0 == mark_mask(binary@, '1', k + 1));
            }
            if j == 2 {
                j = 0;
                i = i + 1;
            } else {
                j = j + 1;
            }
        }
        proof {
            lemma_mark_mask_wf(binary@, '1', 9);
        }
        Ok(bitboard)
    }

    pub fn union(&self, other: &Self) -> (r: Self)
        ensures
            r.0 == self.0 | other.0,
    {
        Bitboard(self.0 | other.0)
    }

    pub fn intersection(&self, other: &Self) -> (r: Self)
        ensures
            r.0 == self.0 & other.0,
    {
        Bitboard(self.0 & other.0)
    }

    pub fn difference(&self, other: &Self) -> (r: Self)
        ensures
            r.0 == self.0 & !other.0,
    {
        Bitboard(self.0 & !other.0)
    }

    pub fn contains(&self, other: Self) -> (r: bool)
        ensures
            r == (self.0 & other.0 == other.0),
    {
        self.intersection(&other) == other
    }

    /// Marks the cell `(row, col)`.
    pub fn set(&mut self, row: usize, col: usize)
        requires
            row < 3,
            col < 3,
        ensures
            final(self).0 == old(self).0 | (1u16 << (bit_index(row as int, col as int) as u16)),
            old(self).wf() ==> final(self).wf(),
    {
        let sh: u16 = ((2 - row) * 3 + (2 - col)) as u16;
        proof {
            lemma_single_bit_bound(sh);
            if old(self).wf() {
                lemma_or_bound(old(self).0, 1u16 << sh);
            }
        }
        self.0 = self.0 | (1u16 << sh);
    }

    /// Number of marked cells.
    pub fn n_set(&self) -> (r: usize)
        requires
            self.wf(),
        ensures
            r == nbits(self.0, 9),
    {
        let mut count: usize = 0;
        let mut i: u16 = 0;
        while i < 9
            invariant
                0 <= i <= 9,
                count == nbits(self.0, i as int),
                count <= i,
            decreases 9 - i,
        {
            if (self.0 >> i) & 1 == 1 {
                count = count + 1;
            }
            i = i + 1;
        }
        count
    }

    /// Whether the cell `(row, col)` is marked.
    pub fn is_set(&self, row: usize, col: usize) -> (r: bool)
        requires
            row < 3,
            col < 3,
        ensures
            r == bit_at(self.0, bit_index(row as int, col as int)),
    {
        let sh: u16 = ((2 - row) * 3 + (2 - col)) as u16;
        proof {
            lemma_bit_test(self.0, sh);
        }
        self.0 & (1u16 << sh) != 0
    }
}

// ---------------------------------------------------------------------------
// Laws of the board model
// ---------------------------------------------------------------------------

/// Making a move is total over the legal moves and only over them: when the
/// board has an active player, that player's move succeeds exactly when it is
/// one of the legal moves, and the resulting position is again well-formed
/// (so its outcome is defined); when the board has none, every move fails.
pub proof fn lemma_apply_iff_legal(b: Board, m: Move)
    requires
        b.wf(),
        m.wf(),
    ensures
        b.spec_active() is Some ==> (b.spec_can_move(b.spec_active().unwrap(), m)
            <==> b.spec_legal_moves().contains(m)),
        b.spec_active() is None ==> forall|p: Player| !b.spec_can_move(p, m),
        forall|p: Player| b.spec_can_move(p, m) ==> (#[trigger] b.spec_apply(p, m)).wf(),
{
    b.lemma_legal_moves_membership();
    let s = bit_index(m.row as int, m.col as int) as u16;
    assert forall|p: Player| b.spec_can_move(p, m) implies (#[trigger] b.spec_apply(p, m)).wf() by {
        lemma_single_bit_bound(s);
        lemma_or_bound(b.x_bitboard.0, 1u16 << s);
        lemma_or_bound(b.o_bitboard.0, 1u16 << s);
        lemma_disjoint_after_set(b.x_bitboard.0, b.o_bitboard.0, s);
    }
}

/// What one move changes: the played cell becomes occupied and every other
/// cell keeps its mark, the occupied count rises by one, and the position
/// stays well-formed.
pub proof fn lemma_apply_move_effect(b: Board, p: Player, m: Move)
    requires
        b.wf(),
        m.wf(),
        !b.occupied(m.row as int, m.col as int),
    ensures
        b.spec_apply(p, m).wf(),
        nbits(b.spec_apply(p, m).union_bits(), 9) == nbits(b.union_bits(), 9) + 1,
        forall|r: int, c: int|
            0 <= r < 3 && 0 <= c < 3 ==> (#[trigger] b.spec_apply(p, m).occupied(r, c) == (
            b.occupied(r, c) || (r == m.row && c == m.col))),
{
    let x = b.x_bitboard.0;
    let o = b.o_bitboard.0;
    let s = bit_index(m.row as int, m.col as int) as u16;
    let b2 = b.spec_apply(p, m);
    lemma_single_bit_bound(s);
    lemma_or_bound(x, 1u16 << s);
    lemma_or_bound(o, 1u16 << s);
    lemma_disjoint_after_set(x, o, s);
    assert((x | (1u16 << s)) | o == (x | o) | (1u16 << s) && x | (o | (1u16 << s)) == (x | o) | (
    1u16 << s)) by (bit_vector);
    lemma_or_bit(x, o, s);
    lemma_nbits_set(x | o, s);
    assert forall|r: int, c: int| 0 <= r < 3 && 0 <= c < 3 implies (#[trigger] b2.occupied(r, c)
        == (b.occupied(r, c) || (r == m.row && c == m.col))) by {
        let i = bit_index(r, c) as u16;
        lemma_set_bit(x, s, i);
        lemma_set_bit(o, s, i);
        if i == s {
            assert(3 * r + c == 3 * m.row + m.col);
            assert(r == m.row && c == m.col);
        }
    }
}

/// A position still in progress has an empty cell.
pub proof fn lemma_in_progress_not_full(b: Board)
    requires
        b.wf(),
        b.spec_outcome() == Outcome::InProgress,
    ensures
        nbits(b.union_bits(), 9) < 9,
{
    lemma_or_bound(b.x_bitboard.0, b.o_bitboard.0);
    lemma_nbits_below_nine(b.union_bits());
}

/// A position reached by a legal move is never ambiguous: before the move
/// the game was in progress, so the mover's opponent had no complete triple,
/// and the move leaves the opponent's mark-set unchanged.
pub proof fn lemma_legal_move_not_ambiguous(b: Board, p: Player, m: Move)
    requires
        b.wf(),
        m.wf(),
        b.spec_can_move(p, m),
    ensures
        b.spec_apply(p, m).spec_outcome() != Outcome::Ambiguous,
{
    assert(b.spec_outcome() == Outcome::InProgress);
}

// ---------------------------------------------------------------------------
// Board rendering
// ---------------------------------------------------------------------------

/// The symbol shown for the cell `(row, col)`.
pub open spec fn cell_char(b: Board, row: int, col: int) -> char {
    if bit_at(b.x_bitboard.0, bit_index(row, col)) {
        'X'
    } else if bit_at(b.o_bitboard.0, bit_index(row, col)) {
        'O'
    } else {
        '_'
    }
}

/// The first `col` symbols of row `row`, the cell `(hrow, hcol)` wrapped in
/// the green escape codes.
pub open spec fn row_text_upto(b: Board, row: int, col: int, hrow: int, hcol: int) -> Seq<char>
    decreases col,
{
    if col <= 0 {
        Seq::empty()
    } else {
        row_text_upto(b, row, col - 1, hrow, hcol) + if row == hrow && col - 1 == hcol {
            green_prefix_text() + seq![cell_char(b, row, col - 1)] + green_suffix_text()
        } else {
            seq![cell_char(b, row, col - 1)]
        }
    }
}

/// The first `row` rows, each followed by a newline except the last.
pub open spec fn board_text_upto(b: Board, row: int, hrow: int, hcol: int) -> Seq<char>
    decreases row,
{
    if row <= 0 {
        Seq::empty()
    } else {
        board_text_upto(b, row - 1, hrow, hcol) + row_text_upto(b, row - 1, 3, hrow, hcol) + if row
            - 1 < 2 {
            seq!['\n']
        } else {
            Seq::<char>::empty()
        }
    }
}

/// The rendered board with the cell `(hrow, hcol)` highlighted in green.
pub open spec fn board_text_highlighted(b: Board, hrow: int, hcol: int) -> Seq<char> {
    board_text_upto(b, 3, hrow, hcol)
}

/// The rendered board: three rows of three symbols, separated by newlines.
pub open spec fn board_text(b: Board) -> Seq<char> {
    board_text_highlighted(b, -1, -1)
}

proof fn lemma_row_text_off_grid(b: Board, row: int, col: int, hrow: int, hcol: int)
    requires
        !(0 <= hrow < 3 && 0 <= hcol < 3),
        0 <= row < 3,
        0 <= col <= 3,
    ensures
        row_text_upto(b, row, col, hrow, hcol) == row_text_upto(b, row, col, -1, -1),
    decreases col,
{
    if col > 0 {
        lemma_row_text_off_grid(b, row, col - 1, hrow, hcol);
    }
}

/// Asking to highlight a cell that is off the grid renders the plain board.
pub proof fn lemma_board_text_off_grid(b: Board, hrow: int, hcol: int)
    requires
        !(0 <= hrow < 3 && 0 <= hcol < 3),
    ensures
        board_text_highlighted(b, hrow, hcol) == board_text(b),
{
    lemma_row_text_off_grid(b, 0, 3, hrow, hcol);
    lemma_row_text_off_grid(b, 1, 3, hrow, hcol);
    lemma_row_text_off_grid(b, 2, 3, hrow, hcol);
    assert(board_text_upto(b, 0, hrow, hcol) == board_text_upto(b, 0, -1, -1));
    assert(board_text_upto(b, 1, hrow, hcol) == board_text_upto(b, 1, -1, -1));
    assert(board_text_upto(b, 2, hrow, hcol) == board_text_upto(b, 2, -1, -1));
    assert(board_text_upto(b, 3, hrow, hcol) == board_text_upto(b, 3, -1, -1));
}

impl Board {
    /// The rendered board with the cell `(row, col)` shown in green; with a
    /// cell off the grid, the plain board.
    pub fn to_string_with_square_highlighted(&self, row: usize, col: usize) -> (out: String)
        ensures
            out@ == board_text_highlighted(*self, row as int, col as int),
    {
        let prefix = green_prefix();
        let suffix = green_suffix();
        let mut to_return = String::new();
        for r in 0..3usize
            invariant
                prefix@ == green_prefix_text(),
                suffix@ == green_suffix_text(),
                to_return@ == board_text_upto(*self, r as int, row as int, col as int),
        {
            for c in 0..3usize
                invariant
                    r < 3,
                    prefix@ == green_prefix_text(),
                    suffix@ == green_suffix_text(),
                    to_return@ == board_text_upto(*self, r as int, row as int, col as int)
                        + row_text_upto(*self, r as int, c as int, row as int, col as int),
            {
                let to_add: &str = if self.x_bitboard.is_set(r, c) {
                    "X"
                } else if self.o_bitboard.is_set(r, c) {
                    "O"
                } else {
                    "_"
                };
                proof {
                    reveal_strlit("X");
                    reveal_strlit("O");
                    reveal_strlit("_");
                    assert(to_add@ =~= seq![cell_char(*self, r as int, c as int)]);
                }
                if r == row && c == col {
                    to_return.append(prefix.as_str());
                    to_return.append(to_add);
                    to_return.append(suffix.as_str());
                } else {
                    to_return.append(to_add);
                }
                proof {
                    assert(to_return@ =~= board_text_upto(*self, r as int, row as int, col as int)
                        + row_text_upto(*self, r as int, c + 1, row as int, col as int));
                }
            }
            if r < 2 {
                to_return.append("\n");
            }
            proof {
                reveal_strlit("\n");
                assert(to_return@ =~= board_text_upto(*self, r + 1, row as int, col as int));
            }
        }
        to_return
    }

    /// The rendered board: one symbol per cell, rows separated by newlines.
    pub fn to_string(&self) -> (out: String)
        ensures
            out@ == board_text(*self),
    {
        let out = self.to_string_with_square_highlighted(3, 3);
        proof {
            lemma_board_text_off_grid(*self, 3, 3);
        }
        out
    }
}

// ---------------------------------------------------------------------------
// Outcome and Player
// ---------------------------------------------------------------------------

/// The two players' marks. `X` moves first.
#[derive(Copy, Clone, Debug, PartialEq, Eq, Structural)]
pub enum Player {
    X,
    O,
}

/// Terminal or non-terminal classification of a position. `Ambiguous` is the
/// representable-but-unreachable state in which both mark-sets complete a
/// winning triple; it is reported rather than filtered out.
#[derive(Copy, Clone, Debug, PartialEq, Eq, Structural)]
pub enum Outcome {
    Victory(Player),
    Draw,
    InProgress,
    Ambiguous,
}

/// Text of a player's mark.
pub open spec fn player_text(p: Player) -> Seq<char> {
    match p {
        Player::X => "X"@,
        Player::O => "O"@,
    }
}

/// Text of an outcome.
pub open spec fn outcome_text(o: Outcome) -> Seq<char> {
    match o {
        Outcome::Victory(p) => player_text(p) + " wins"@,
        Outcome::Draw => "Draw"@,
        Outcome::InProgress => "Game in progress"@,
        Outcome::Ambiguous => "Ambiguous"@,
    }
}

impl Player {
    pub fn to_string(&self) -> (r: String)
        ensures
            r@ == player_text(*self),
    {
        match self {
            Player::X => "X".to_owned(),
            Player::O => "O".to_owned(),
        }
    }
}

impl Outcome {
    pub fn to_string(&self) -> (r: String)
        ensures
            r@ == outcome_text(*self),
    {
        match self {
            Outcome::Victory(player) => player.to_string().concat(" wins"),
            Outcome::Draw => "Draw".to_owned(),
            Outcome::InProgress => "Game in progress".to_owned(),
            Outcome::Ambiguous => "Ambiguous".to_owned(),
        }
    }
}

impl Move {
    /// The board after this move by the active player, rendered with the
    /// just-played cell highlighted in green.
    pub fn to_string_on_board(&self, board: &Board) -> (r: Result<String, GameError>)
        requires
            self.wf(),
            board.wf(),
        ensures
            board.spec_active() is None ==> r == Err::<String, GameError>(GameError::GameOverError),
            board.spec_active() is Some && board.occupied(self.row as int, self.col as int) ==> r
                == Err::<String, GameError>(GameError::IllegalMoveError),
            board.spec_active() is Some && !board.occupied(self.row as int, self.col as int) ==> r
                is Ok && r.unwrap()@ == board_text_highlighted(
                board.spec_apply(board.spec_active().unwrap(), *self),
                self.row as int,
                self.col as int,
            ),
    {
        let player = match board.get_active_player() {
            Some(player) => player,
            None => {
                return Err(GameError::GameOverError);
            },
        };
        let final_board = match board.with_move_made(player, *self) {
            Ok(b) => b,
            Err(_) => {
                return Err(GameError::IllegalMoveError);
            },
        };
        Ok(final_board.to_string_with_square_highlighted(self.get_row(), self.get_column()))
    }
}

// ---------------------------------------------------------------------------
// Move
// ---------------------------------------------------------------------------

/// A move on the 3-by-3 grid: a (row, column) pair, each coordinate in [0, 2].
#[derive(Debug, Clone, Copy, PartialEq, Eq, Structural)]
pub struct Move {
    pub row: usize,
    pub col: usize,
}

impl Move {
    /// Both coordinates lie on the grid.
    pub open spec fn wf(self) -> bool {
        self.row < 3 && self.col < 3
    }

    /// Row-major rank of the targeted cell.
    pub open spec fn cell(self) -> int {
        3 * self.row + self.col
    }

    pub fn new(row: usize, col: usize) -> (m: Move)
        requires
            row < 3,
            col < 3,
        ensures
            m == (Move { row, col }),
    {
        Move { row, col }
    }

    pub fn get_row(&self) -> (r: usize)
        ensures
            r == self.row,
    {
        self.row
    }

    pub fn get_column(&self) -> (c: usize)
        ensures
            c == self.col,
    {
        self.col
    }

    pub fn to_string(&self) -> (r: String)
        requires
            self.wf(),
        ensures
            r@ == move_text(*self),
    {
        let row_str: &str = match self.row {
            0 => "0",
            1 => "1",
            _ => "2",
        };
        let col_str: &str = match self.col {
            0 => "0",
            1 => "1",
            _ => "2",
        };
        let r = "(".to_owned().concat(row_str).concat(", ").concat(col_str).concat(")");
        proof {
            assert(r@ =~= move_text(*self));
        }
        r
    }

    /// Parses move text: after discarding whitespace, exactly two characters,
    /// the row digit then the column digit, each one of '0', '1', '2'.
    pub fn from_string(s: &str) -> (r: Result<Move, GameError>)
        ensures
            ({
                let t = strip_whitespace(s@);
                &&& valid_move_text(t) ==> r == Ok::<Move, GameError>(
                    Move { row: digit_of(t[0]) as usize, col: digit_of(t[1]) as usize },
                )
                &&& !valid_move_text(t) ==> r == Err::<Move, GameError>(GameError::ParseError)
                &&& r is Ok ==> r.unwrap().wf()
            }),
    {
        let stripped = strip_str(s);
        if stripped.len() != 2 {
            return Err(GameError::ParseError);
        }
        let row: usize = match stripped[0] {
            '0' => 0,
            '1' => 1,
            '2' => 2,
            _ => {
                return Err(GameError::ParseError);
            },
        };
        let col: usize = match stripped[1] {
            '0' => 0,
            '1' => 1,
            '2' => 2,
            _ => {
                return Err(GameError::ParseError);
            },
        };
        Ok(Move { row, col })
    }
}

/// Digit text for a coordinate in [0, 2].
pub open spec fn digit_text(n: int) -> Seq<char> {
    if n == 0 {
        "0"@
    } else if n == 1 {
        "1"@
    } else {
        "2"@
    }
}

/// Text of a move: its coordinates as a parenthesised pair.
pub open spec fn move_text(m: Move) -> Seq<char> {
    "("@ + digit_text(m.row as int) + ", "@ + digit_text(m.col as int) + ")"@
}

// ---------------------------------------------------------------------------
// Board
// ---------------------------------------------------------------------------

/// Full occupancy state of the grid: one nine-bit mask for each mark. The
/// two masks never overlap.
#[derive(Debug, Clone, Copy, PartialEq, Eq, Structural)]
pub struct Board {
    pub x_bitboard: Bitboard,
    pub o_bitboard: Bitboard,
}

impl Board {
    /// The mark-sets use only the nine cell bits and are disjoint.
    pub open spec fn wf(self) -> bool {
        &&& self.x_bitboard.wf()
        &&& self.o_bitboard.wf()
        &&& self.x_bitboard.0 & self.o_bitboard.0 == 0
    }

    /// Mask of all occupied cells.
    pub open spec fn union_bits(self) -> u16 {
        self.x_bitboard.0 | self.o_bitboard.0
    }

    /// Whether the cell `(row, col)` holds either mark.
    pub open spec fn occupied(self, row: int, col: int) -> bool {
        bit_at(self.x_bitboard.0, bit_index(row, col)) || bit_at(
            self.o_bitboard.0,
            bit_index(row, col),
        )
    }

    /// Outcome, derived from the mark-sets alone.
    pub open spec fn spec_outcome(self) -> Outcome {
        if spec_victory(self.x_bitboard.0) && spec_victory(self.o_bitboard.0) {
            Outcome::Ambiguous
        } else if spec_victory(self.x_bitboard.0) {
            Outcome::Victory(Player::X)
        } else if spec_victory(self.o_bitboard.0) {
            Outcome::Victory(Player::O)
        } else if self.union_bits() == 511 {
            Outcome::Draw
        } else {
            Outcome::InProgress
        }
    }

    /// Active player: none once the outcome is decided; otherwise `X` when
    /// both marks cover equally many cells (`X` moves first), else `O`.
    pub open spec fn spec_active(self) -> Option<Player> {
        if self.spec_outcome() != Outcome::InProgress {
            None
        } else if nbits(self.x_bitboard.0, 9) == nbits(self.o_bitboard.0, 9) {
            Some(Player::X)
        } else {
            Some(Player::O)
        }
    }

    /// The board after `player` marks the cell of `m`.
    pub open spec fn spec_apply(self, player: Player, m: Move) -> Board {
        let mask = 1u16 << (bit_index(m.row as int, m.col as int) as u16);
        match player {
            Player::X => Board {
                x_bitboard: Bitboard(self.x_bitboard.0 | mask),
                o_bitboard: self.o_bitboard,
            },
            Player::O => Board {
                x_bitboard: self.x_bitboard,
                o_bitboard: Bitboard(self.o_bitboard.0 | mask),
            },
        }
    }

    /// Whether `player` may make the move `m` here: the turn is theirs and
    /// the targeted cell is empty.
    pub open spec fn spec_can_move(self, player: Player, m: Move) -> bool {
        &&& self.spec_active() == Some(player)
        &&& !self.occupied(m.row as int, m.col as int)
    }

    /// The legal moves from the cell `(row, col)` on, in row-major order:
    /// one move for each empty cell.
    pub open spec fn lm_from(self, row: int, col: int) -> Seq<Move>
        decreases 3 - row, 3 - col,
    {
        if !(0 <= row <= 3 && 0 <= col <= 3) {
            Seq::empty()
        } else if row == 3 {
            Seq::empty()
        } else if col == 3 {
            self.lm_from(row + 1, 0)
        } else if self.occupied(row, col) {
            self.lm_from(row, col + 1)
        } else {
            seq![Move { row: row as usize, col: col as usize }] + self.lm_from(row, col + 1)
        }
    }

    /// All legal moves, in row-major order.
    pub open spec fn spec_legal_moves(self) -> Seq<Move> {
        self.lm_from(0, 0)
    }

    pub fn empty() -> (r: Board)
        ensures
            r.x_bitboard.0 == 0,
            r.o_bitboard.0 == 0,
            r.wf(),
            r.spec_outcome() == Outcome::InProgress,
            r.spec_active() == Some(Player::X),
    {
        proof {
            assert(0u16 & 0u16 == 0u16 && 0u16 | 0u16 == 0u16) by (bit_vector);
            assert(!spec_victory(0u16)) by (bit_vector);
        }
        Board { x_bitboard: Bitboard::empty(), o_bitboard: Bitboard::empty() }
    }

    pub fn new(x_bitboard: Bitboard, o_bitboard: Bitboard) -> (r: Board)
        requires
            x_bitboard.wf(),
            o_bitboard.wf(),
            x_bitboard.0 & o_bitboard.0 == 0,
        ensures
            r == (Board { x_bitboard, o_bitboard }),
            r.wf(),
    {
        Board { x_bitboard, o_bitboard }
    }

    /// Parses position text: after discarding whitespace, exactly nine
    /// symbols, one per cell in row-major order, each 'X', 'O' or '_'.
    pub fn from_position(position: &str) -> (r: Result<Self, GameError>)
        ensures
            ({
                let t = strip_whitespace(position@);
                &&& valid_position_text(t) ==> r == Ok::<Board, GameError>(
                    Board {
                        x_bitboard: Bitboard(mark_mask(t, 'X', 9)),
                        o_bitboard: Bitboard(mark_mask(t, 'O', 9)),
                    },
                )
                &&& !valid_position_text(t) ==> r == Err::<Board, GameError>(GameError::ParseError)
                &&& r is Ok ==> r.unwrap().wf()
            }),
    {
        let stripped = strip_str(position);
        if stripped.len() != 9 {
            return Err(GameError::ParseError);
        }
        let ghost t = strip_whitespace(position@);
        let mut x_bitboard = Bitboard::empty();
        let mut o_bitboard = Bitboard::empty();
        let mut row: usize = 0;
        let mut col: usize = 0;
        for k in 0..9usize
            invariant
                t == strip_whitespace(position@),
                stripped@ == t,
                t.len() == 9,
                3 * row + col == k,
                col < 3,
                row <= 3,
                x_bitboard.0 == mark_mask(t, 'X', k as int),
                o_bitboard.0 == mark_mask(t, 'O', k as int),
                x_bitboard.wf(),
                o_bitboard.wf(),
                forall|k2: int| 0 <= k2 < k ==> is_position_symbol(t[k2]),
        {
            let c = stripped[k];
            match c {
                'X' => x_bitboard.set(row, col),
                'O' => o_bitboard.set(row, col),
                '_' => (),
                _ => {
                    proof {
                        assert(!is_position_symbol(t[k as int]));
                        assert(!valid_position_text(t));
                    }
                    return Err(GameError::ParseError);
                },
            }
            proof {
                if c != 'X' {
                    lemma_or_zero(mark_mask(t, 'X', k as int));
                }
                if c != 'O' {
                    lemma_or_zero(mark_mask(t, 'O', k as int));
                }
            }
            if col == 2 {
                col = 0;
                row = row + 1;
            } else {
                col = col + 1;
            }
        }
        proof {
            lemma_mark_mask_wf(t, 'X', 9);
            lemma_mark_mask_wf(t, 'O', 9);
            lemma_mark_masks_disjoint(t, 9);
        }
        Ok(Board { x_bitboard, o_bitboard })
    }

    pub fn get_outcome(&self) -> (r: Outcome)
        ensures
            r == self.spec_outcome(),
    {
        let x_victory = self.x_bitboard.is_victory();
        let o_victory = self.o_bitboard.is_victory();
        match (self.is_full(), x_victory, o_victory) {
            (_, true, true) => Outcome::Ambiguous,
            (_, true, false) => Outcome::Victory(Player::X),
            (_, false, true) => Outcome::Victory(Player::O),
            (true, false, false) => Outcome::Draw,
            (false, false, false) => Outcome::InProgress,
        }
    }

    pub fn is_full(&self) -> (r: bool)
        ensures
            r == (self.union_bits() == 511),
    {
        self.x_bitboard.union(&self.o_bitboard) == Bitboard::full()
    }

    fn is_set(&self, row: usize, col: usize) -> (r: bool)
        requires
            row < 3,
            col < 3,
        ensures
            r == self.occupied(row as int, col as int),
    {
        self.x_bitboard.is_set(row, col) || self.o_bitboard.is_set(row, col)
    }

    /// Marks the cell of `m` for `player` in place. Succeeds exactly when
    /// the turn is `player`'s and the cell is empty; a failed call returns
    /// `IllegalMoveError` and leaves the board unchanged.
    pub fn make_move(&mut self, player: Player, m: Move) -> (r: Result<(), GameError>)
        requires
            old(self).wf(),
            m.wf(),
        ensures
            old(self).spec_can_move(player, m) ==> r == Ok::<(), GameError>(()) && *final(self)
                == old(self).spec_apply(player, m),
            !old(self).spec_can_move(player, m) ==> r == Err::<(), GameError>(
                GameError::IllegalMoveError,
            ) && *final(self) == *old(self),
            final(self).wf(),
    {
        let is_active = match self.get_active_player() {
            Some(p) => match (p, player) {
                (Player::X, Player::X) => true,
                (Player::O, Player::O) => true,
                _ => false,
            },
            None => false,
        };
        if !is_active {
            return Err(GameError::IllegalMoveError);
        }
        if self.is_set(m.get_row(), m.get_column()) {
            return Err(GameError::IllegalMoveError);
        }
        proof {
            let s = bit_index(m.row as int, m.col as int) as u16;
            lemma_disjoint_after_set(self.x_bitboard.0, self.o_bitboard.0, s);
        }
        match player {
            Player::X => self.x_bitboard.set(m.get_row(), m.get_column()),
            Player::O => self.o_bitboard.set(m.get_row(), m.get_column()),
        }
        return Ok(());
    }

    /// The board with the cell of `m` marked for `player`; the receiver is
    /// unchanged. Fails exactly as `make_move` does.
    pub fn with_move_made(&self, player: Player, m: Move) -> (r: Result<Board, GameError>)
        requires
            self.wf(),
            m.wf(),
        ensures
            self.spec_can_move(player, m) ==> r == Ok::<Board, GameError>(
                self.spec_apply(player, m),
            ) && r.unwrap().wf(),
            !self.spec_can_move(player, m) ==> r == Err::<Board, GameError>(
                GameError::IllegalMoveError,
            ),
    {
        let mut new_board = self.clone();
        match new_board.make_move(player, m) {
            Ok(()) => Ok(new_board),
            Err(e) => Err(e),
        }
    }

    pub fn get_active_player(&self) -> (r: Option<Player>)
        requires
            self.wf(),
        ensures
            r == self.spec_active(),
    {
        match self.get_outcome() {
            Outcome::InProgress => {},
            _ => {
                return None;
            },
        }
        if self.x_bitboard.n_set() == self.o_bitboard.n_set() {
            Some(Player::X)
        } else {
            Some(Player::O)
        }
    }

    /// All empty cells as moves, in row-major order. The length is nine
    /// minus the number of occupied cells.
    pub fn get_legal_moves(&self) -> (r: Vec<Move>)
        requires
            self.wf(),
        ensures
            r@ == self.spec_legal_moves(),
            r@.len() == 9 - nbits(self.union_bits(), 9),
    {
        let mut moves: Vec<Move> = Vec::new();
        for row in 0..3
            invariant
                self.wf(),
                self.spec_legal_moves() == moves@ + self.lm_from(row as int, 0),
        {
            for col in 0..3
                invariant
                    self.wf(),
                    row < 3,
                    self.spec_legal_moves() == moves@ + self.lm_from(row as int, col as int),
            {
                if !self.is_set(row, col) {
                    moves.push(Move::new(row, col));
                }
                proof {
                    assert(self.spec_legal_moves() =~= moves@ + self.lm_from(
                        row as int,
                        col + 1 as int,
                    ));
                }
            }
            proof {
                assert(self.lm_from(row as int, 3) == self.lm_from(row as int + 1, 0));
            }
        }
        proof {
            assert(self.spec_legal_moves() =~= moves@);
            self.lemma_legal_moves_len();
        }
        moves
    }

    /// Counting lemma behind the legal-move contract: from `(row, col)` on
    /// there is one legal move for each empty cell.
    proof fn lemma_lm_len(self, row: int, col: int)
        requires
            0 <= row <= 3,
            0 <= col <= 3,
            row == 3 ==> col == 0,
        ensures
            self.lm_from(row, col).len() == (9 - (3 * row + col)) - nbits(
                self.union_bits(),
                9 - (3 * row + col),
            ),
        decreases 3 - row, 3 - col,
    {
        let k = 3 * row + col;
        if row == 3 {
            // empty tail
        } else if col == 3 {
            self.lemma_lm_len(row + 1, 0);
        } else {
            self.lemma_lm_len(row, col + 1);
            let i = (8 - k) as u16;
            lemma_or_bit(self.x_bitboard.0, self.o_bitboard.0, i);
            assert(nbits(self.union_bits(), 9 - k) == nbits(self.union_bits(), 8 - k) + if bit_at(
                self.union_bits(),
                8 - k,
            ) {
                1int
            } else {
                0int
            });
        }
    }

    pub proof fn lemma_legal_moves_len(self)
        ensures
            self.spec_legal_moves().len() == 9 - nbits(self.union_bits(), 9),
    {
        self.lemma_lm_len(0, 0);
    }

    /// Order and membership of the legal moves from `(row, col)` on: each
    /// targets an empty cell at or after that one, cells strictly increase,
    /// and every such empty cell is included.
    proof fn lemma_lm_props(self, row: int, col: int)
        requires
            0 <= row <= 3,
            0 <= col <= 3,
            row == 3 ==> col == 0,
        ensures
            forall|i: int|
                0 <= i < self.lm_from(row, col).len() ==> (#[trigger] self.lm_from(row, col)[i]).wf()
                    && self.lm_from(row, col)[i].cell() >= 3 * row + col && !self.occupied(
                    self.lm_from(row, col)[i].row as int,
                    self.lm_from(row, col)[i].col as int,
                ),
            forall|i: int, j: int|
                0 <= i < j < self.lm_from(row, col).len() ==> (#[trigger] self.lm_from(
                    row,
                    col,
                )[i]).cell() < (#[trigger] self.lm_from(row, col)[j]).cell(),
            forall|m: Move|
                m.wf() && m.cell() >= 3 * row + col && !self.occupied(m.row as int, m.col as int)
                    ==> #[trigger] self.lm_from(row, col).contains(m),
        decreases 3 - row, 3 - col,
    {
        if row == 3 {
        } else if col == 3 {
            self.lemma_lm_props(row + 1, 0);
            assert(self.lm_from(row, col) == self.lm_from(row + 1, 0));
            assert forall|m: Move|
                m.wf() && m.cell() >= 3 * row + col && !self.occupied(
                    m.row as int,
                    m.col as int,
                ) implies #[trigger] self.lm_from(row, col).contains(m) by {
                assert(m.cell() >= 3 * (row + 1));
                assert(self.lm_from(row + 1, 0).contains(m));
            }
        } else {
            self.lemma_lm_props(row, col + 1);
            let s = self.lm_from(row, col);
            let t = self.lm_from(row, col + 1);
            if !self.occupied(row, col) {
                let head = Move { row: row as usize, col: col as usize };
                assert(s == seq![head] + t);
                assert forall|i: int| 0 <= i < s.len() implies (#[trigger] s[i]).wf() && s[i].cell()
                    >= 3 * row + col && !self.occupied(s[i].row as int, s[i].col as int) by {
                    if i == 0 {
                        assert(s[i] == head);
                    } else {
                        assert(s[i] == t[i - 1]);
                    }
                }
                assert forall|i: int, j: int| 0 <= i < j < s.len() implies (#[trigger] s[i]).cell()
                    < (#[trigger] s[j]).cell() by {
                    if i == 0 {
                        assert(s[j] == t[j - 1]);
                        assert(t[j - 1].cell() >= 3 * row + col + 1);
                    } else {
                        assert(s[i] == t[i - 1] && s[j] == t[j - 1]);
                    }
                }
                assert forall|m: Move|
                    m.wf() && m.cell() >= 3 * row + col && !self.occupied(
                        m.row as int,
                        m.col as int,
                    ) implies #[trigger] s.contains(m) by {
                    if m == head {
                        assert(s[0] == m);
                    } else {
                        if m.cell() == 3 * row + col {
                            assert(m.row == row && m.col == col);
                        }
                        assert(m.cell() >= 3 * row + col + 1);
                        assert(t.contains(m));
                        let j = choose|j: int| 0 <= j < t.len() && t[j] == m;
                        assert(s[j + 1] == m);
                    }
                }
            } else {
                assert(s == t);
                assert forall|m: Move|
                    m.wf() && m.cell() >= 3 * row + col && !self.occupied(
                        m.row as int,
                        m.col as int,
                    ) implies #[trigger] s.contains(m) by {
                    if m.cell() == 3 * row + col {
                        assert(m.row == row && m.col == col);
                        assert(false);
                    }
                    assert(t.contains(m));
                }
            }
        }
    }

    /// Membership in the legal moves is exactly: a well-formed move onto an
    /// empty cell.
    pub proof fn lemma_legal_moves_membership(self)
        ensures
            forall|m: Move|
                #[trigger] self.spec_legal_moves().contains(m) <==> (m.wf() && !self.occupied(
                    m.row as int,
                    m.col as int,
                )),
    {
        self.lemma_lm_props(0, 0);
        assert forall|m: Move| #[trigger]
            self.spec_legal_moves().contains(m) implies (m.wf() && !self.occupied(
            m.row as int,
            m.col as int,
        )) by {
            let i = choose|i: int|
                0 <= i < self.spec_legal_moves().len() && self.spec_legal_moves()[i] == m;
            assert(self.spec_legal_moves()[i].wf());
        }
    }
}

} // verus!
