//! One square of the grid: the symbol it holds, if any, and the set of
//! symbols that can no longer go there.

use vstd::prelude::*;

verus! {

/// The exclusion set that holds all nine symbols: bits 1 to 9.
pub const ALL_EXCLUDED: u16 = 0b0000_0011_1111_1110;

/// Whether bit `k` of `bits` is set.
pub open spec fn bit(bits: u16, k: u16) -> bool {
    (bits >> k) & 1 == 1
}

/// Whether the exclusion set `bits` holds the symbol `symbol`.
pub open spec fn excludes(bits: u16, symbol: int) -> bool {
    1 <= symbol <= 9 && bit(bits, symbol as u16)
}

/// The symbols that the exclusion set `bits` holds.
pub open spec fn symbols_of(bits: u16) -> Set<int> {
    Set::new(|symbol: int| excludes(bits, symbol))
}

/// The nine symbols.
pub open spec fn all_symbols() -> Set<int> {
    Set::new(|symbol: int| 1 <= symbol <= 9)
}

/// Whether `bits` marks nothing but symbols 1 to 9.
pub open spec fn symbols_only(bits: u16) -> bool {
    bits & ALL_EXCLUDED == bits
}

/// Whether `symbol` is the one symbol among 1 to 9 that `bits` leaves open.
pub open spec fn sole_candidate(bits: u16, symbol: int) -> bool {
    &&& 1 <= symbol <= 9
    &&& !excludes(bits, symbol)
    &&& forall|other: int| 1 <= other <= 9 && other != symbol ==> excludes(bits, other)
}

/// The symbol that `bits` leaves open, where it leaves exactly one open.
pub open spec fn last_candidate(bits: u16) -> u8 {
    (choose|symbol: int| sole_candidate(bits, symbol)) as u8
}

/// The symbols of `bits` as nine numbers: each symbol at the index one below
/// it, and 0 where a symbol is not in `bits`.
pub open spec fn excluded_symbols(bits: u16) -> Seq<u8> {
    Seq::new(
        9,
        |i: int|
            if excludes(bits, i + 1) {
                (i + 1) as u8
            } else {
                0u8
            },
    )
}

/// The exclusion set that holds `symbol` alone; empty for 0, the blank.
pub open spec fn symbol_bit(symbol: u8) -> u16 {
    if 1 <= symbol <= 9 {
        1u16 << (symbol as u16)
    } else {
        0
    }
}

/// One square: its symbol and its exclusion set. The set is a bit mask so
/// that a union is one machine operation; `excluded` gives it as a set.
#[derive(Clone, Copy, PartialEq, Eq, Structural)]
pub struct Position {
    /// The symbol placed here, 1 to 9, or 0 while none is.
    pub final_value: u8,
    /// Bit `k` is set when symbol `k` cannot go here.
    pub impossibilities: u16,
}

impl Position {
    /// The square's invariant: a symbol in range, an exclusion set over the
    /// nine symbols, and the full set once a symbol is placed.
    pub open spec fn wf(&self) -> bool {
        &&& self.final_value <= 9
        &&& symbols_only(self.impossibilities)
        &&& self.final_value != 0 ==> self.impossibilities == ALL_EXCLUDED
    }

    /// The symbols that cannot go here.
    pub open spec fn excluded(&self) -> Set<int> {
        symbols_of(self.impossibilities)
    }

    /// The symbols that are still open here.
    pub open spec fn candidates(&self) -> Set<int> {
        all_symbols().difference(self.excluded())
    }

    /// Whether `symbol` could still be placed here.
    pub open spec fn admits(&self, symbol: int) -> bool {
        &&& self.final_value == 0
        &&& 1 <= symbol <= 9
        &&& !excludes(self.impossibilities, symbol)
    }

    /// This square with `symbol` placed in it.
    pub open spec fn assigned(symbol: u8) -> Position {
        Position { final_value: symbol, impossibilities: ALL_EXCLUDED }
    }

    /// A square as it starts out: closed with `symbol` in it, or, for 0,
    /// blank with nothing excluded.
    pub open spec fn holding(symbol: u8) -> Position {
        if symbol != 0 {
            Self::assigned(symbol)
        } else {
            Position { final_value: 0, impossibilities: 0 }
        }
    }

    /// This square with the symbols of `mask` excluded as well.
    pub open spec fn excluding(&self, mask: u16) -> Position {
        Position { final_value: self.final_value, impossibilities: self.impossibilities | mask }
    }

    /// Whether the square is blank with exactly one symbol left open.
    pub open spec fn is_naked_single(&self) -> bool {
        self.final_value == 0 && exists|symbol: int| sole_candidate(self.impossibilities, symbol)
    }

    /// The square after it has taken its last open symbol, if it is blank and
    /// has exactly one; the square itself otherwise.
    pub open spec fn resolved(&self) -> Position {
        if self.is_naked_single() {
            Self::assigned(last_candidate(self.impossibilities))
        } else {
            *self
        }
    }

    /// A blank square with nothing excluded.
    pub fn new() -> (position: Position)
        ensures
            position.final_value == 0,
            position.impossibilities == 0,
            position.wf(),
    {
        assert(0u16 & ALL_EXCLUDED == 0u16) by (bit_vector);
        Position { final_value: 0, impossibilities: 0 }
    }

    /// Places `final_value` here and closes the square to every symbol.
    pub fn set_final_value(&mut self, final_value: u8)
        requires
            1 <= final_value <= 9,
        ensures
            final(self).final_value == final_value,
            final(self).impossibilities == ALL_EXCLUDED,
            final(self).excluded() == all_symbols(),
            *final(self) == Self::assigned(final_value),
            final(self).wf(),
    {
        self.final_value = final_value;
        self.impossibilities = ALL_EXCLUDED;
        proof {
            lemma_all_excluded();
            assert(self.excluded() =~= all_symbols());
        }
    }

    /// Adds the symbols of `impossibilities` to the exclusion set.
    pub fn add_impossibilities(&mut self, impossibilities: u16)
        requires
            symbols_only(impossibilities),
        ensures
            final(self).final_value == old(self).final_value,
            final(self).impossibilities == old(self).impossibilities | impossibilities,
            *final(self) == old(self).excluding(impossibilities),
            final(self).excluded() == old(self).excluded().union(symbols_of(impossibilities)),
            old(self).excluded().subset_of(final(self).excluded()),
            old(self).wf() ==> final(self).wf(),
    {
        proof {
            lemma_union_bits(self.impossibilities, impossibilities);
            lemma_union_symbols_only(self.impossibilities, impossibilities);
        }
        self.impossibilities |= impossibilities;
        assert(self.excluded() =~= old(self).excluded().union(symbols_of(impossibilities)));
    }

    /// Places the last open symbol, if the square is blank and exactly one
    /// symbol is left open, and says whether it did. Leaves the square as it
    /// is otherwise.
    pub fn check_for_final_value(&mut self) -> (changed: bool)
        ensures
            changed == old(self).is_naked_single(),
            changed ==> sole_candidate(old(self).impossibilities, final(self).final_value as int),
            changed ==> old(self).candidates() == set![final(self).final_value as int],
            changed ==> final(self).impossibilities == ALL_EXCLUDED,
            !changed ==> *final(self) == *old(self),
            *final(self) == old(self).resolved(),
            old(self).wf() ==> final(self).wf(),
    {
        if self.final_value != 0 {
            return false;
        }
        let bits: u16 = self.impossibilities;
        let mut possibility: u8 = 0;
        let mut i: u8 = 1;
        while i <= 9
            invariant
                1 <= i <= 10,
                possibility < i,
                *self == *old(self),
                self.final_value == 0,
                bits == self.impossibilities,
                possibility == 0 ==> forall|k: int| 1 <= k < i ==> excludes(bits, k),
                possibility != 0 ==> !excludes(bits, possibility as int),
                possibility != 0 ==> forall|k: int|
                    1 <= k < i && k != possibility ==> excludes(bits, k),
            decreases 10 - i,
        {
            let shift: u16 = i as u16;
            assert((bits >> shift) & 1 == 0 || (bits >> shift) & 1 == 1) by (bit_vector);
            if (bits >> shift) & 1 == 0 {
                if possibility != 0 {
                    assert forall|symbol: int| !sole_candidate(bits, symbol) by {
                        if sole_candidate(bits, symbol) {
                            assert(excludes(bits, possibility as int) || excludes(bits, i as int));
                        }
                    }
                    return false;
                }
                possibility = i;
            }
            i += 1;
        }
        if possibility == 0 {
            assert forall|symbol: int| !sole_candidate(bits, symbol) by {
                if sole_candidate(bits, symbol) {
                    assert(excludes(bits, symbol));
                }
            }
            return false;
        }
        assert(sole_candidate(bits, possibility as int));
        proof {
            let chosen = choose|symbol: int| sole_candidate(bits, symbol);
            assert(sole_candidate(bits, chosen));
            assert(chosen == possibility) by {
                if chosen != possibility {
                    assert(excludes(bits, chosen));
                }
            }
            lemma_sole_candidate(bits, possibility as int);
        }
        self.set_final_value(possibility);
        true
    }

    /// The symbols of `bits`, each at the index one below it; 0 where a
    /// symbol is not in `bits`.
    pub fn bits_to_array(bits: u16) -> (symbols: [u8; 9])
        ensures
            symbols@ == excluded_symbols(bits),
    {
        let mut array: [u8; 9] = [0; 9];
        let mut i: u8 = 1;
        while i <= 9
            invariant
                1 <= i <= 10,
                forall|j: int|
                    0 <= j < i - 1 ==> array[j] == if excludes(bits, j + 1) {
                        (j + 1) as u8
                    } else {
                        0u8
                    },
                forall|j: int| i - 1 <= j < 9 ==> array[j] == 0,
            decreases 10 - i,
        {
            let shift: u16 = i as u16;
            if (bits >> shift) & 1 == 1 {
                array[(i - 1) as usize] = i;
            }
            i += 1;
        }
        assert(array@ =~= excluded_symbols(bits));
        array
    }

    /// The excluded symbols, each at the index one below it; 0 where a symbol
    /// is still open.
    pub fn get_impossibilities(&self) -> (symbols: [u8; 9])
        ensures
            symbols@ == excluded_symbols(self.impossibilities),
    {
        Self::bits_to_array(self.impossibilities)
    }
}

/// Excluding is monotone: whatever the mask, the exclusion set afterwards
/// holds every symbol that it held before, and what it holds besides is in
/// the mask.
pub proof fn lemma_excluding_monotone(p: Position, mask: u16)
    ensures
        p.excluded().subset_of(p.excluding(mask).excluded()),
        p.excluding(mask).excluded() == p.excluded().union(symbols_of(mask)),
        p.excluding(mask).final_value == p.final_value,
{
    lemma_union_bits(p.impossibilities, mask);
    assert(p.excluding(mask).excluded() =~= p.excluded().union(symbols_of(mask)));
}

/// A symbol is the sole candidate exactly when it alone is open.
pub proof fn lemma_sole_candidate(bits: u16, symbol: int)
    ensures
        sole_candidate(bits, symbol) <==> all_symbols().difference(symbols_of(bits))
            == set![symbol],
{
    let open = all_symbols().difference(symbols_of(bits));
    if sole_candidate(bits, symbol) {
        assert forall|other: int| open.contains(other) <==> other == symbol by {
            if 1 <= other <= 9 && other != symbol {
                assert(excludes(bits, other));
            }
        }
        assert(open =~= set![symbol]);
    }
    if open == set![symbol] {
        assert(open.contains(symbol));
        assert forall|other: int| 1 <= other <= 9 && other != symbol implies excludes(
            bits,
            other,
        ) by {
            assert(!open.contains(other));
        }
    }
}

/// Every symbol is in the full exclusion set, and the set holds nothing else.
pub proof fn lemma_all_excluded()
    ensures
        symbols_only(ALL_EXCLUDED),
        forall|symbol: int| 1 <= symbol <= 9 ==> excludes(ALL_EXCLUDED, symbol),
{
    assert(0x3feu16 & 0x3feu16 == 0x3feu16) by (bit_vector);
    assert(forall|k: u16| 1 <= k <= 9 ==> (0x3feu16 >> k) & 1 == 1) by (bit_vector);
    assert forall|symbol: int| 1 <= symbol <= 9 implies excludes(ALL_EXCLUDED, symbol) by {
        assert(bit(0x3feu16, symbol as u16));
    }
}

/// A union excludes a symbol exactly when one of its two sides does.
pub proof fn lemma_union_bits(a: u16, b: u16)
    ensures
        forall|symbol: int| excludes(a | b, symbol) <==> excludes(a, symbol) || excludes(b, symbol),
{
    assert(forall|k: u16|
        k < 16 ==> (((a | b) >> k) & 1 == 1 <==> (a >> k) & 1 == 1 || (b >> k) & 1 == 1))
        by (bit_vector);
    assert forall|symbol: int| excludes(a | b, symbol) <==> excludes(a, symbol) || excludes(
        b,
        symbol,
    ) by {
        if 1 <= symbol <= 9 {
            let k = symbol as u16;
            assert(bit(a | b, k) <==> bit(a, k) || bit(b, k));
        }
    }
}

/// A union of two sets over the nine symbols is a set over the nine symbols,
/// and the full set absorbs any of them.
pub proof fn lemma_union_symbols_only(a: u16, b: u16)
    requires
        symbols_only(b),
    ensures
        symbols_only(a) ==> symbols_only(a | b),
        ALL_EXCLUDED | b == ALL_EXCLUDED,
{
    assert(b & 0x3feu16 == b ==> 0x3feu16 | b == 0x3feu16) by (bit_vector);
    assert(b & 0x3feu16 == b && a & 0x3feu16 == a ==> (a | b) & 0x3feu16 == a | b)
        by (bit_vector);
}

} // verus!
