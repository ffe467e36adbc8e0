//! The set of digits that are still possible for a cell, held as a 9-bit mask.
use vstd::prelude::*;
use vstd::utf8::encode_utf8;
use crate::text::{append_str, builder_bytes, finish, lemma_encode_concat, new_builder};

verus! {

/// The nine digit characters of the puzzle.
pub open spec fn digits() -> Set<char> {
    set!['1', '2', '3', '4', '5', '6', '7', '8', '9']
}

/// A puzzle digit, as the character that names it.
pub open spec fn is_digit(c: char) -> bool {
    '1' <= c && c <= '9'
}

/// The digit character numbered `k`, from 1 to 9.
pub open spec fn digit_char(k: int) -> char {
    (48 + k) as char
}

/// The members of `s` among the digits 1 to `k`, in increasing order, separated by ", ".
pub open spec fn list_upto(s: Set<char>, k: int) -> Seq<char>
    decreases k,
{
    if k <= 0 {
        seq![]
    } else {
        let prev = list_upto(s, k - 1);
        let d = digit_char(k);
        if s.contains(d) {
            if prev.len() == 0 {
                seq![d]
            } else {
                prev + seq![',', ' ', d]
            }
        } else {
            prev
        }
    }
}

/// A set written out with braces, such as `{1, 4, 9}`.
pub open spec fn set_text(s: Set<char>) -> Seq<char> {
    seq!['{'] + list_upto(s, 9) + seq!['}']
}

/// The one-character string of digit number `offset + 1`.
pub(crate) fn digit_text(offset: u16) -> (r: &'static str)
    requires
        offset < 9,
    ensures
        r@ == seq![digit_char(offset + 1)],
{
    proof {
        reveal_strlit("1");
        reveal_strlit("2");
        reveal_strlit("3");
        reveal_strlit("4");
        reveal_strlit("5");
        reveal_strlit("6");
        reveal_strlit("7");
        reveal_strlit("8");
        reveal_strlit("9");
    }
    match offset {
        0 => "1",
        1 => "2",
        2 => "3",
        3 => "4",
        4 => "5",
        5 => "6",
        6 => "7",
        7 => "8",
        _ => "9",
    }
}

/// `s` is `{d}` for a digit `d`.
pub open spec fn single_digit(s: Set<char>) -> bool {
    exists|d: char| is_digit(d) && s == set![d]
}

/// The position in a mask of the bit that stands for digit `c`.
pub open spec fn bit_index(c: char) -> u16 {
    (c as u32 - 49) as u16
}

/// Bit `i` of `v` is set.
pub open spec fn has_bit(v: u16, i: u16) -> bool {
    (v >> i) & 1u16 == 1u16
}

pub proof fn lemma_digit_in_digits(c: char)
    ensures
        is_digit(c) <==> digits().contains(c),
{
    if is_digit(c) {
        assert(c == '1' || c == '2' || c == '3' || c == '4' || c == '5' || c == '6' || c == '7'
            || c == '8' || c == '9');
    }
}


/// Bits of `1 << k`: exactly bit `k`.
proof fn lemma_single_bit(k: u16, j: u16)
    by (bit_vector)
    requires
        k < 9,
        j < 9,
    ensures
        ((1u16 << k) >> j) & 1u16 == 1u16 <==> j == k,
        (1u16 << k) < 512,
{
}

/// How the bits of a union, an intersection and a difference are made.
proof fn lemma_combine_bits(a: u16, b: u16, j: u16)
    by (bit_vector)
    requires
        j < 9,
    ensures
        ((a | b) >> j) & 1u16 == 1u16 <==> ((a >> j) & 1u16 == 1u16 || (b >> j) & 1u16 == 1u16),
        ((a & b) >> j) & 1u16 == 1u16 <==> ((a >> j) & 1u16 == 1u16 && (b >> j) & 1u16 == 1u16),
        ((a & !b) >> j) & 1u16 == 1u16 <==> ((a >> j) & 1u16 == 1u16 && (b >> j) & 1u16 != 1u16),
{
}

/// Masks under 512 stay under 512 through the set operations.
proof fn lemma_combine_bounded(a: u16, b: u16)
    by (bit_vector)
    requires
        a < 512,
        b < 512,
    ensures
        a | b < 512,
        a & b < 512,
        a & !b < 512,
{
}

/// A mask under 512 is determined by its nine low bits.
proof fn lemma_bits_determine(a: u16, b: u16)
    by (bit_vector)
    requires
        a < 512,
        b < 512,
        (a >> 0u16) & 1u16 == (b >> 0u16) & 1u16,
        (a >> 1u16) & 1u16 == (b >> 1u16) & 1u16,
        (a >> 2u16) & 1u16 == (b >> 2u16) & 1u16,
        (a >> 3u16) & 1u16 == (b >> 3u16) & 1u16,
        (a >> 4u16) & 1u16 == (b >> 4u16) & 1u16,
        (a >> 5u16) & 1u16 == (b >> 5u16) & 1u16,
        (a >> 6u16) & 1u16 == (b >> 6u16) & 1u16,
        (a >> 7u16) & 1u16 == (b >> 7u16) & 1u16,
        (a >> 8u16) & 1u16 == (b >> 8u16) & 1u16,
    ensures
        a == b,
{
}

/// The test for a single bit set: a power of two below 512.
proof fn lemma_power_of_two(v: u16)
    by (bit_vector)
    requires
        0 < v < 512,
    ensures
        (v == 1 || v & ((v - 1u16) as u16) == 0) <==> (v == 1 || v == 2 || v == 4 || v == 8
            || v == 16 || v == 32 || v == 64 || v == 128 || v == 256),
{
}

/// For `k < 9`, `1 << k` is one of the nine single-bit masks.
proof fn lemma_shift_values(k: u16)
    by (bit_vector)
    requires
        k < 9,
    ensures
        (1u16 << k) == 1 || (1u16 << k) == 2 || (1u16 << k) == 4 || (1u16 << k) == 8 || (1u16 << k)
            == 16 || (1u16 << k) == 32 || (1u16 << k) == 64 || (1u16 << k) == 128 || (1u16 << k)
            == 256,
{
}

proof fn lemma_shifts()
    by (bit_vector)
    ensures
        1u16 << 0u16 == 1,
        1u16 << 1u16 == 2,
        1u16 << 2u16 == 4,
        1u16 << 3u16 == 8,
        1u16 << 4u16 == 16,
        1u16 << 5u16 == 32,
        1u16 << 6u16 == 64,
        1u16 << 7u16 == 128,
        1u16 << 8u16 == 256,
{
}

/// A set of candidate digits, one bit per digit: bit `i` stands for digit `i + 1`.
#[derive(Clone, Copy)]
pub struct CellOptions {
    value: u16,
}

impl View for CellOptions {
    type V = Set<char>;

    /// The digits whose bits are set.
    closed spec fn view(&self) -> Set<char> {
        digits().filter(|c: char| has_bit(self.value, bit_index(c)))
    }
}

impl CellOptions {
    /// No bit beyond the nine digit bits is set.
    pub closed spec fn wf(&self) -> bool {
        self.value < 512
    }

    /// The set holds exactly one digit.
    pub open spec fn is_single(&self) -> bool {
        single_digit(self@)
    }

    /// The members of a view are digits, and there are finitely many of them.
    proof fn lemma_view_members(self)
        ensures
            forall|c: char| #[trigger] self@.contains(c) ==> is_digit(c),
            self@.finite(),
    {
        assert forall|c: char| #[trigger] self@.contains(c) implies is_digit(c) by {
            lemma_digit_in_digits(c);
        }
    }

    /// Membership of a digit in the view is its bit.
    proof fn lemma_member(self, c: char)
        requires
            is_digit(c),
        ensures
            self@.contains(c) <==> has_bit(self.value, bit_index(c)),
    {
        lemma_digit_in_digits(c);
    }

    /// Two valid sets with the same members have the same mask.
    proof fn lemma_view_injective(self, other: CellOptions)
        requires
            self.wf(),
            other.wf(),
            self@ == other@,
        ensures
            self.value == other.value,
    {
        let a = self.value;
        let b = other.value;
        assert forall|j: u16| j < 9 implies (a >> j) & 1u16 == (b >> j) & 1u16 by {
            let c = (j + 49) as char;
            self.lemma_member(c);
            other.lemma_member(c);
            assert((a >> j) & 1u16 == 1u16 || (a >> j) & 1u16 == 0u16) by (bit_vector);
            assert((b >> j) & 1u16 == 1u16 || (b >> j) & 1u16 == 0u16) by (bit_vector);
        }
        assert((a >> 0u16) & 1u16 == (b >> 0u16) & 1u16);
        assert((a >> 1u16) & 1u16 == (b >> 1u16) & 1u16);
        assert((a >> 2u16) & 1u16 == (b >> 2u16) & 1u16);
        assert((a >> 3u16) & 1u16 == (b >> 3u16) & 1u16);
        assert((a >> 4u16) & 1u16 == (b >> 4u16) & 1u16);
        assert((a >> 5u16) & 1u16 == (b >> 5u16) & 1u16);
        assert((a >> 6u16) & 1u16 == (b >> 6u16) & 1u16);
        assert((a >> 7u16) & 1u16 == (b >> 7u16) & 1u16);
        assert((a >> 8u16) & 1u16 == (b >> 8u16) & 1u16);
        lemma_bits_determine(a, b);
    }

    /// A valid set is `{c}` exactly when its mask is the single bit of `c`.
    proof fn lemma_single_value(self, c: char)
        requires
            self.wf(),
            is_digit(c),
        ensures
            (self@ == set![c]) <==> (self.value == 1u16 << bit_index(c)),
    {
        let k = bit_index(c);
        let one = CellOptions { value: 1u16 << k };
        lemma_single_bit(k, 0);
        assert forall|d: char| #[trigger] one@.contains(d) <==> set![c].contains(d) by {
            lemma_digit_in_digits(d);
            if is_digit(d) {
                lemma_single_bit(k, bit_index(d));
            }
        }
        assert(one@ =~= set![c]);
        if self@ == set![c] {
            self.lemma_view_injective(one);
        }
    }

    /// The set holds one digit exactly when its mask is a power of two.
    proof fn lemma_single_power(self)
        requires
            self.wf(),
        ensures
            self.is_single() <==> (self.value == 1 || self.value == 2 || self.value == 4
                || self.value == 8 || self.value == 16 || self.value == 32 || self.value == 64
                || self.value == 128 || self.value == 256),
    {
        lemma_shifts();
        if self.is_single() {
            let d = choose|d: char| is_digit(d) && self@ == set![d];
            self.lemma_single_value(d);
            assert(bit_index(d) < 9);
            lemma_shift_values(bit_index(d));
        }
        let v = self.value;
        if v == 1 {
            self.lemma_single_value('1');
            assert(is_digit('1') && self@ == set!['1']);
        }
        if v == 2 {
            self.lemma_single_value('2');
            assert(is_digit('2') && self@ == set!['2']);
        }
        if v == 4 {
            self.lemma_single_value('3');
            assert(is_digit('3') && self@ == set!['3']);
        }
        if v == 8 {
            self.lemma_single_value('4');
            assert(is_digit('4') && self@ == set!['4']);
        }
        if v == 16 {
            self.lemma_single_value('5');
            assert(is_digit('5') && self@ == set!['5']);
        }
        if v == 32 {
            self.lemma_single_value('6');
            assert(is_digit('6') && self@ == set!['6']);
        }
        if v == 64 {
            self.lemma_single_value('7');
            assert(is_digit('7') && self@ == set!['7']);
        }
        if v == 128 {
            self.lemma_single_value('8');
            assert(is_digit('8') && self@ == set!['8']);
        }
        if v == 256 {
            self.lemma_single_value('9');
            assert(is_digit('9') && self@ == set!['9']);
        }
    }

    /// A set with every digit.
    pub fn new() -> (r: CellOptions)
        ensures
            r.wf(),
            r@ == digits(),
    {
        let r = CellOptions { value: 0x1FF };
        proof {
            assert forall|c: char| #[trigger] r@.contains(c) <==> digits().contains(c) by {
                lemma_digit_in_digits(c);
                if is_digit(c) {
                    let j = bit_index(c);
                    assert(((0x1FFu16 >> j) & 1u16 == 1u16)) by (bit_vector)
                        requires j < 9;
                }
            }
            assert(r@ =~= digits());
        }
        r
    }

    /// Puts every digit back.
    pub fn clear(&mut self)
        ensures
            final(self).wf(),
            final(self)@ == digits(),
    {
        *self = CellOptions::new();
    }

    /// Leaves `c` as the only digit.
    pub fn set_one(&mut self, c: char)
        requires
            is_digit(c),
        ensures
            final(self).wf(),
            final(self)@ == set![c],
    {
        let k: u16 = (c as u32 - '1' as u32) as u16;
        self.value = 1u16 << k;
        proof {
            lemma_single_bit(k, 0);
            self.lemma_single_value(c);
        }
    }

    /// Whether exactly one digit is left.
    pub fn has_one_option(&self) -> (r: bool)
        requires
            self.wf(),
        ensures
            r == self.is_single(),
    {
        let v = self.value;
        proof {
            self.lemma_single_power();
            if v > 0 {
                lemma_power_of_two(v);
            }
        }
        if v > 0 {
            return v == 1 || (v & (v - 1)) == 0;
        }
        false
    }

    /// The one digit of a set that holds one.
    pub fn get_last_option(&mut self) -> (r: char)
        requires
            old(self).wf(),
            old(self).is_single(),
        ensures
            *final(self) == *old(self),
            is_digit(r),
            final(self)@ == set![r],
    {
        proof {
            self.lemma_single_power();
            lemma_shifts();
        }
        let r = match self.value {
            0x001 => '1',
            0x002 => '2',
            0x004 => '3',
            0x008 => '4',
            0x010 => '5',
            0x020 => '6',
            0x040 => '7',
            0x080 => '8',
            _ => '9',
        };
        proof {
            self.lemma_single_value(r);
        }
        r
    }

    /// Takes `c` out; nothing changes if it was not there.
    pub fn unset(&mut self, c: char)
        requires
            old(self).wf(),
            is_digit(c),
        ensures
            final(self).wf(),
            final(self)@ == old(self)@.remove(c),
            !old(self)@.contains(c) ==> *final(self) == *old(self),
    {
        let k: u16 = (c as u32 - '1' as u32) as u16;
        let a = self.value;
        let b = 1u16 << k;
        proof {
            lemma_single_bit(k, 0);
            lemma_combine_bounded(a, b);
        }
        self.value = a & !b;
        proof {
            let n = *self;
            let o = CellOptions { value: a };
            assert forall|d: char| #[trigger] n@.contains(d) <==> o@.remove(c).contains(d) by {
                lemma_digit_in_digits(d);
                if is_digit(d) {
                    lemma_combine_bits(a, b, bit_index(d));
                    lemma_single_bit(k, bit_index(d));
                }
            }
            assert(n@ =~= o@.remove(c));
            if !o@.contains(c) {
                assert(o@.remove(c) =~= o@);
                n.lemma_view_injective(o);
            }
        }
    }

    /// The digits in either set.
    pub fn union(&self, other: &CellOptions) -> (r: CellOptions)
        requires
            self.wf(),
            other.wf(),
        ensures
            r.wf(),
            r@ == self@.union(other@),
    {
        let mut result = CellOptions::new();
        result.value = self.value | other.value;
        proof {
            lemma_combine_bounded(self.value, other.value);
            assert forall|d: char| #[trigger] result@.contains(d) <==> self@.union(other@).contains(d) by {
                lemma_digit_in_digits(d);
                if is_digit(d) {
                    lemma_combine_bits(self.value, other.value, bit_index(d));
                }
            }
            assert(result@ =~= self@.union(other@));
        }
        result
    }

    /// The digits in both sets.
    pub fn intersection(&self, other: &CellOptions) -> (r: CellOptions)
        requires
            self.wf(),
            other.wf(),
        ensures
            r.wf(),
            r@ == self@.intersect(other@),
    {
        let mut result = CellOptions::new();
        result.value = self.value & other.value;
        proof {
            lemma_combine_bounded(self.value, other.value);
            assert forall|d: char| #[trigger] result@.contains(d) <==> self@.intersect(other@).contains(d) by {
                lemma_digit_in_digits(d);
                if is_digit(d) {
                    lemma_combine_bits(self.value, other.value, bit_index(d));
                }
            }
            assert(result@ =~= self@.intersect(other@));
        }
        result
    }

    /// The set written out with braces, such as `{1, 4, 9}`.
    pub fn display(&self) -> (r: String)
        requires
            self.wf(),
        ensures
            r@ == set_text(self@),
    {
        proof {
            reveal_strlit("{");
            reveal_strlit(", ");
            reveal_strlit("}");
        }
        let mut builder = new_builder();
        append_str(&mut builder, "{");
        proof {
            assert(seq!['{'] + list_upto(self@, 0) =~= seq!['{']);
            assert("{"@ =~= seq!['{']);
            assert(builder_bytes(builder) =~= encode_utf8(seq!['{']));
        }
        let mut offset: u16 = 0;
        let mut first = true;
        while offset < 9
            invariant
                offset <= 9,
                self.wf(),
                builder_bytes(builder) == encode_utf8(seq!['{'] + list_upto(self@, offset as int)),
                first == (list_upto(self@, offset as int).len() == 0),
            decreases 9 - offset,
        {
            let ghost before = list_upto(self@, offset as int);
            proof {
                reveal_strlit(", ");
                assert(", "@ =~= seq![',', ' ']);
            }
            let ghost d = digit_char(offset + 1);
            proof {
                assert(d as u32 == 49 + offset);
                assert(bit_index(d) == offset);
                self.lemma_member(d);
                let v = self.value;
                assert(((v >> offset) & 1u16 != 0) <==> ((v >> offset) & 1u16 == 1u16)) by (bit_vector);
            }
            if (self.value >> offset) & 1 != 0 {
                if !first {
                    append_str(&mut builder, ", ");
                    proof {
                        lemma_encode_concat(seq!['{'] + before, seq![',', ' ']);
                        assert(seq!['{'] + before + seq![',', ' '] =~= seq!['{'] + before + seq![',', ' ']);
                    }
                } else {
                    first = false;
                }
                let ghost mid = if before.len() == 0 { seq!['{'] } else { seq!['{'] + before + seq![',', ' '] };
                append_str(&mut builder, digit_text(offset));
                proof {
                    lemma_encode_concat(mid, seq![d]);
                    if before.len() == 0 {
                        assert(mid + seq![d] =~= seq!['{'] + list_upto(self@, offset + 1));
                    } else {
                        assert(mid + seq![d] =~= seq!['{'] + list_upto(self@, offset + 1));
                    }
                }
            }
            offset += 1;
        }
        append_str(&mut builder, "}");
        proof {
            reveal_strlit("}");
            assert("}"@ =~= seq!['}']);
            lemma_encode_concat(seq!['{'] + list_upto(self@, 9), seq!['}']);
        }
        finish(builder, Ghost(set_text(self@)))
    }

    /// The digits of `self` that are not in `other`.
    pub fn difference(&self, other: &CellOptions) -> (r: CellOptions)
        requires
            self.wf(),
            other.wf(),
        ensures
            r.wf(),
            r@ == self@.difference(other@),
    {
        let mut result = CellOptions::new();
        result.value = self.value & !other.value;
        proof {
            lemma_combine_bounded(self.value, other.value);
            assert forall|d: char| #[trigger] result@.contains(d) <==> self@.difference(other@).contains(d) by {
                lemma_digit_in_digits(d);
                if is_digit(d) {
                    lemma_combine_bits(self.value, other.value, bit_index(d));
                }
            }
            assert(result@ =~= self@.difference(other@));
        }
        result
    }
}

/// Laws of the set algebra: a set minus itself is empty, a set joined with every digit
/// is every digit, a set met with the empty set is empty, and a set holds a single digit
/// exactly when it has one member.
pub proof fn lemma_set_algebra(a: CellOptions)
    requires
        a.wf(),
    ensures
        a@.difference(a@) == Set::<char>::empty(),
        a@.union(digits()) == digits(),
        a@.intersect(Set::<char>::empty()) == Set::<char>::empty(),
        a.is_single() <==> a@.len() == 1,
{
    a.lemma_view_members();
    assert(a@.difference(a@) =~= Set::<char>::empty());
    assert forall|c: char| #[trigger] a@.contains(c) implies digits().contains(c) by {
        lemma_digit_in_digits(c);
    }
    assert(a@.union(digits()) =~= digits());
    assert(a@.intersect(Set::<char>::empty()) =~= Set::<char>::empty());
    Set::lemma_is_singleton(a@);
    if a.is_single() {
        let d = choose|d: char| is_digit(d) && a@ == set![d];
        assert(a@.is_singleton());
    }
    if a@.len() == 1 {
        assert(a@.is_singleton());
        let x = a@.choose();
        assert(a@.contains(x));
        assert(a@ =~= set![x]);
    }
}

/// Nine distinct digits include every digit.
pub proof fn lemma_nine_digits(s: Seq<char>, d: char)
    requires
        s.len() == 9,
        s.no_duplicates(),
        forall|k: int| 0 <= k < 9 ==> is_digit(#[trigger] s[k]),
        is_digit(d),
    ensures
        s.contains(d),
{
    s.unique_seq_to_set();
    if !s.contains(d) {
        assert forall|c: char| #[trigger] s.to_set().contains(c) implies digits().contains(c) by {
            lemma_digit_in_digits(c);
        }
        lemma_digit_in_digits(d);
        assert(!s.to_set().contains(d));
        let e = Set::<char>::empty();
        assert(e.insert('1').len() == 1);
        assert(e.insert('1').insert('2').len() == 2);
        assert(e.insert('1').insert('2').insert('3').len() == 3);
        assert(e.insert('1').insert('2').insert('3').insert('4').len() == 4);
        assert(e.insert('1').insert('2').insert('3').insert('4').insert('5').len() == 5);
        assert(e.insert('1').insert('2').insert('3').insert('4').insert('5').insert('6').len() == 6);
        assert(e.insert('1').insert('2').insert('3').insert('4').insert('5').insert('6').insert('7').len() == 7);
        assert(e.insert('1').insert('2').insert('3').insert('4').insert('5').insert('6').insert('7').insert('8').len() == 8);
        assert(digits().len() == 9);
        s.to_set().lemma_subset_not_in_lt(digits(), d);
    }
}

} // verus!
