//! The transposition table and the Zobrist keys that index it.
use vstd::prelude::*;
use crate::bitboard::{bit, lemma_mask_test};
use crate::board::{Board, Color, Position};
use crate::board::moves::Move;

verus! {

/// Transposition table entry.
/// The key is a hash of the board state.
/// The value is the best evaluation of the position.
/// The depth is the depth of the best move.
/// Best move is of type Move for easier assignment.
#[derive(Clone, Copy)]
pub struct TTEntry {
    pub key: u64,
    pub value: i32,
    pub depth: u8,
    pub flag: u8,
    pub best_move: Move,
}

/// The entry of an empty slot: key 0, depth 0.
pub open spec fn empty_entry() -> TTEntry {
    TTEntry { key: 0, value: 0, depth: 0, flag: 0, best_move: Move(0) }
}

impl Default for TTEntry {
    fn default() -> (r: Self)
        ensures
            r == empty_entry(),
    {
        TTEntry { key: 0, value: 0, depth: 0, flag: 0, best_move: Move(0) }
    }
}

/// The slot of a hash in a table of `len` entries.
pub open spec fn slot(hash: u64, len: int) -> int {
    (hash as usize) as int % len
}

/// What a lookup of `hash` finds: the entry in its slot, when it was stored
/// under that hash at a nonzero depth.
pub open spec fn lookup(entries: Seq<TTEntry>, hash: u64) -> Option<TTEntry> {
    let e = entries[slot(hash, entries.len() as int)];
    if e.key == hash && e.depth != 0 {
        Some(e)
    } else {
        None
    }
}

/// The size of an entry in bytes: the key, the value, the depth, the flag
/// and the move fill two 8-byte words.
pub const ENTRY_BYTES: usize = 16;

/// The number of entries that fit in `mb` megabytes.
pub open spec fn table_len(mb: int) -> nat {
    (mb * 1048576 / ENTRY_BYTES as int) as nat
}


/// After an entry is stored, looking up its key finds it, as long as it was
/// stored at a nonzero depth.
pub proof fn lemma_put_then_get(entries: Seq<TTEntry>, e: TTEntry)
    requires
        entries.len() > 0,
        e.depth != 0,
    ensures
        lookup(entries.update(slot(e.key, entries.len() as int), e), e.key) == Some(e),
{
    let k = slot(e.key, entries.len() as int);
    assert(0 <= k < entries.len());
}

/// A fixed-size hash table used to store previously evaluated board positions.
///
/// # Indexing Logic
/// The indexing uses the modulo operator (`hash % size`) to map the large
/// (64-bit) Zobrist hash space into the finite, valid index range of the
/// array (0 to `size - 1`).
///
/// # Collision Policy
/// This implementation uses a "replace" policy where new entries overwrite old ones
/// at the same index in the event of a collision.
pub struct TranspositionTable {
    table: Vec<TTEntry>,
    size: usize,
}

impl View for TranspositionTable {
    type V = Seq<TTEntry>;

    closed spec fn view(&self) -> Seq<TTEntry> {
        self.table@
    }
}

impl TranspositionTable {
    /// The cached size is the number of entries.
    pub closed spec fn well_formed(&self) -> bool {
        self.size == self.table@.len()
    }

    /// A table of `size_in_mb` megabytes of empty entries.
    pub fn new(size_in_mb: usize) -> (r: Self)
        requires
            size_in_mb * 1048576 <= usize::MAX,
        ensures
            r.well_formed(),
            r@ == Seq::new(table_len(size_in_mb as int), |i: int| empty_entry()),
            r@.len() == size_in_mb * 65536,
    {
        // Calculate number of entries: (Size in bytes) / (Size of an entry in bytes)
        let num_entries = (size_in_mb * 1024 * 1024) / ENTRY_BYTES;
        // Initialize with default entries (key will be 0, indicating empty)
        let table = vec![TTEntry::default(); num_entries];
        proof {
            assert forall|i: int| 0 <= i < table@.len() implies table@[i] == empty_entry() by {
                assert(cloned::<TTEntry>(empty_entry(), table@[i]));
            }
        }
        let r = Self { table, size: num_entries };
        assert(r@ =~= Seq::new(table_len(size_in_mb as int), |i: int| empty_entry()));
        r
    }

    /// The number of entries.
    pub fn len(&self) -> (r: usize)
        requires
            self.well_formed(),
        ensures
            r == self@.len(),
    {
        self.size
    }

    /// Gets the entry stored for a board hash, if it is there.
    pub fn get(&self, hash: u64) -> (r: Option<TTEntry>)
        requires
            self.well_formed(),
            self@.len() > 0,
        ensures
            r == lookup(self@, hash),
    {
        let index = (hash as usize) % self.size;
        let entry = self.table[index];
        // Check if the key matches (verifies it's not a collision)
        if entry.key == hash && entry.depth != 0 {
            Some(entry)
        } else {
            None
        }
    }

    /// Stores an entry in the slot of its key, replacing what was there.
    pub fn put(&mut self, entry: TTEntry)
        requires
            old(self).well_formed(),
            old(self)@.len() > 0,
        ensures
            final(self).well_formed(),
            final(self)@ == old(self)@.update(slot(entry.key, old(self)@.len() as int), entry),
    {
        let index = (entry.key as usize) % self.size;
        self.table.set(index, entry);
    }
}

/// Zobrist hashing constants for unique board state identification.
pub struct ZobristKeys {
    /// 64 squares for each of the 12 piece types.
    pub pieces: [[u64; 64]; 12],
    /// 16 possible combinations of castling rights.
    pub castling: [u64; 16],
    /// 8 possible en passant files, plus 1 for no EP target.
    pub ep_file: [u64; 9],
    /// Unique key added if it is Black's turn to move.
    pub side_to_move: u64,
}

/// One step of the key generator.
pub open spec fn lcg(s: u64) -> u64 {
    s.wrapping_mul(6364136223846793005).wrapping_add(1)
}

/// The generator's state after `n` steps from the fixed seed.
pub open spec fn key_stream(n: nat) -> u64
    decreases n,
{
    if n == 0 {
        123456789
    } else {
        lcg(key_stream((n - 1) as nat))
    }
}

/// The keys drawn in order: the piece keys square by square, then the
/// castling keys, the en passant keys and the side key.
#[verifier::opaque]
pub open spec fn keys_drawn(k: ZobristKeys) -> bool {
    &&& forall|i: int, j: int|
        0 <= i < 12 && 0 <= j < 64 ==> #[trigger] k.pieces[i][j] == key_stream((i * 64 + j + 1) as nat)
    &&& forall|i: int| 0 <= i < 16 ==> #[trigger] k.castling[i] == key_stream((769 + i) as nat)
    &&& forall|i: int| 0 <= i < 9 ==> #[trigger] k.ep_file[i] == key_stream((785 + i) as nat)
    &&& k.side_to_move == key_stream(794)
}

/// Advances the generator and returns its new state.
pub fn next_state(state: &mut u64) -> (r: u64)
    ensures
        *final(state) == lcg(*old(state)),
        r == *final(state),
{
    *state = state.wrapping_mul(6364136223846793005).wrapping_add(1);
    *state
}

/// Generates the random keys from a fixed seed.
///
/// A fixed seed is used to ensure the keys are deterministic across
/// program executions, which is required for the Transposition Table
/// to function correctly.
pub fn generate_keys() -> (r: ZobristKeys)
    ensures
        keys_drawn(r),
{
    let mut state = 123456789u64;
    let ghost mut n: nat = 0;
    let mut pieces = [[0u64; 64]; 12];
    let mut i: usize = 0;
    while i < 12
        invariant
            0 <= i <= 12,
            n == i * 64,
            state == key_stream(n),
            forall|a: int, b: int|
                0 <= a < i && 0 <= b < 64 ==> #[trigger] pieces[a][b] == key_stream((a * 64 + b + 1) as nat),
        decreases 12 - i,
    {
        let mut row = [0u64; 64];
        let mut j: usize = 0;
        while j < 64
            invariant
                0 <= i < 12,
                0 <= j <= 64,
                n == i * 64 + j,
                state == key_stream(n),
                forall|b: int| 0 <= b < j ==> #[trigger] row[b] == key_stream((i * 64 + b + 1) as nat),
            decreases 64 - j,
        {
            let v = next_state(&mut state);
            proof {
                n = n + 1;
            }
            row[j] = v;
            j = j + 1;
        }
        pieces[i] = row;
        i = i + 1;
    }
    let mut castling = [0u64; 16];
    let mut i: usize = 0;
    while i < 16
        invariant
            0 <= i <= 16,
            n == 768 + i,
            state == key_stream(n),
            forall|a: int| 0 <= a < i ==> #[trigger] castling[a] == key_stream((769 + a) as nat),
        decreases 16 - i,
    {
        let v = next_state(&mut state);
        proof {
            n = n + 1;
        }
        castling[i] = v;
        i = i + 1;
    }
    let mut ep_file = [0u64; 9];
    let mut i: usize = 0;
    while i < 9
        invariant
            0 <= i <= 9,
            n == 784 + i,
            state == key_stream(n),
            forall|a: int| 0 <= a < i ==> #[trigger] ep_file[a] == key_stream((785 + a) as nat),
        decreases 9 - i,
    {
        let v = next_state(&mut state);
        proof {
            n = n + 1;
        }
        ep_file[i] = v;
        i = i + 1;
    }
    let side_to_move = next_state(&mut state);
    let keys = ZobristKeys { pieces, castling, ep_file, side_to_move };
    assert(keys_drawn(keys)) by {
        reveal(keys_drawn);
    }
    keys
}


/// The key of piece index `i` on square `s`.
pub open spec fn piece_key(i: int, s: int) -> u64 {
    key_stream((i * 64 + s + 1) as nat)
}

/// The piece keys of the first `n` (bitboard, square) pairs that hold a piece, xored.
pub open spec fn pieces_hash(p: Position, n: int) -> u64
    decreases n,
{
    if n <= 0 {
        0
    } else {
        pieces_hash(p, n - 1) ^ if bit(p.pieces[(n - 1) / 64], (n - 1) % 64) {
            piece_key((n - 1) / 64, (n - 1) % 64)
        } else {
            0u64
        }
    }
}

/// The en passant key's index: the target's file, or 8 without a target.
pub open spec fn ep_key_index(p: Position) -> int {
    match p.en_passant_sq {
        Some(s) => (s % 8) as int,
        None => 8,
    }
}

/// The Zobrist hash of a position: its pieces, castling rights, en passant
/// file and, with Black to move, the side key.
pub open spec fn zobrist(p: Position) -> u64 {
    pieces_hash(p, 768) ^ key_stream((769 + (p.castling_rights & 15u8)) as nat) ^ key_stream(
        (785 + ep_key_index(p)) as nat,
    ) ^ if p.side_to_move == Color::Black {
        key_stream(794)
    } else {
        0u64
    }
}

impl Board {
    /// The Zobrist hash of the position.
    pub fn zobrist_hash(&self, keys: &ZobristKeys) -> (r: u64)
        requires
            keys_drawn(*keys),
        ensures
            r == zobrist(self@),
    {
        proof {
            reveal(keys_drawn);
        }
        let mut h: u64 = 0;
        let mut i: usize = 0;
        while i < 12
            invariant
                0 <= i <= 12,
                keys_drawn(*keys),
                h == pieces_hash(self@, i * 64),
            decreases 12 - i,
        {
            let bb = self.pieces[i];
            let mut s: usize = 0;
            while s < 64
                invariant
                    0 <= i < 12,
                    0 <= s <= 64,
                    keys_drawn(*keys),
                    bb == self.pieces@[i as int],
                    h == pieces_hash(self@, i * 64 + s),
                decreases 64 - s,
            {
                proof {
                    lemma_mask_test(bb, s as int);
                    assert((i * 64 + s) / 64 == i as int) by (nonlinear_arith)
                        requires
                            s < 64,
                    ;
                    assert((i * 64 + s) % 64 == s as int) by (nonlinear_arith)
                        requires
                            s < 64,
                    ;
                    reveal(keys_drawn);
                    assert(keys.pieces[i as int][s as int] == piece_key(i as int, s as int));
                }
                if bb & (1u64 << s) != 0 {
                    h = h ^ keys.pieces[i][s];
                } else {
                    proof {
                        assert(h ^ 0u64 == h) by (bit_vector);
                    }
                }
                s = s + 1;
            }
            i = i + 1;
        }
        let c = (self.castling_rights & 15) as usize;
        proof {
            let r = self.castling_rights;
            assert(r & 15u8 < 16) by (bit_vector);
        }
        h = h ^ keys.castling[c];
        let e: usize = match self.en_passant_sq {
            Some(sq) => (sq % 8) as usize,
            None => 8,
        };
        h = h ^ keys.ep_file[e];
        if self.side_to_move == Color::Black {
            h = h ^ keys.side_to_move;
        } else {
            proof {
                assert(h ^ 0u64 == h) by (bit_vector);
            }
        }
        h
    }
}

} // verus!
