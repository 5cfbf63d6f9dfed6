//! The ids of pipeline nodes and of the buffers between them.

use vstd::prelude::*;

use crate::id::{IncrementalId, NumericId};

verus! {

/// Untyped handle to a node in a pipeline.
///
/// The handle stands for a non-zero `u32` number; the node it refers to has index
/// `number - 1`, which is what the handle stores.
#[derive(Debug, Clone, Copy, PartialEq, Eq, Structural, PartialOrd, Ord, Hash)]
pub struct NodeId {
    index: u32,
}

impl NodeId {
    #[verifier::type_invariant]
    spec fn below_max(&self) -> bool {
        self.index < u32::MAX
    }

    /// The non-zero number this handle stands for.
    pub open spec fn number(&self) -> nat {
        self.position() + 1
    }

    pub fn get(&self) -> (r: u32)
        ensures
            r == self.number(),
    {
        proof {
            use_type_invariant(self);
        }
        self.index + 1
    }

    /// Two handles with the same position are the same handle.
    pub proof fn lemma_position_injective(a: NodeId, b: NodeId)
        requires
            a.position() == b.position(),
        ensures
            a == b,
    {
    }

    /// The handle's number as eight upper-case hexadecimal digits.
    pub fn to_string(&self) -> (r: String)
        ensures
            r@ == hex_digits(self.number(), 8),
    {
        let n = self.get();
        let mut x: u32 = n;
        let mut digits: Vec<char> = Vec::new();
        for i in 0..8usize
            invariant
                hex_digits(n as nat, 8) == hex_digits(x as nat, (8 - i) as nat) + digits@.reverse(),
                digits@.len() == i,
        {
            let d = x % 16;
            let c = hex_char(d);
            proof {
                assert(hex_digits(x as nat, (8 - i) as nat) == hex_digits((x / 16) as nat, (8 - i - 1) as nat).push(
                    c,
                ));
                assert(digits@.push(c).reverse() =~= seq![c] + digits@.reverse());
                assert(hex_digits((x / 16) as nat, (8 - i - 1) as nat).push(c) + digits@.reverse()
                    =~= hex_digits((x / 16) as nat, (8 - i - 1) as nat) + (seq![c] + digits@.reverse()));
            }
            digits.push(c);
            x = x / 16;
        }
        assert(hex_digits(x as nat, 0) == Seq::<char>::empty());
        assert(hex_digits(n as nat, 8) =~= digits@.reverse());
        let mut s = String::new();
        let mut j: usize = 8;
        while j > 0
            invariant
                j <= 8,
                digits@.len() == 8,
                s@ == digits@.reverse().take((8 - j) as int),
            decreases j,
        {
            j = j - 1;
            push_char(&mut s, digits[j]);
            assert(digits@.reverse()[(7 - j) as int] == digits@[j as int]);
            assert(s@ =~= digits@.reverse().take((8 - j) as int));
        }
        assert(digits@.reverse().take(8) =~= digits@.reverse());
        s
    }
}

/// The upper-case hexadecimal digit for `d` (below 16).
pub open spec fn hex_digit(d: nat) -> char {
    if d < 10 {
        (48 + d) as char
    } else {
        (55 + d) as char
    }
}

/// The last `width` hexadecimal digits of `x`, most significant first.
pub open spec fn hex_digits(x: nat, width: nat) -> Seq<char>
    decreases width,
{
    if width == 0 {
        Seq::empty()
    } else {
        hex_digits(x / 16, (width - 1) as nat).push(hex_digit(x % 16))
    }
}

/// The value of a hexadecimal digit: `0`-`9` are worth 0 to 9 and `A`-`F`
/// 10 to 15; any other character is no digit and is worth -1.
pub open spec fn hex_value(c: char) -> int {
    if '0' as int <= c as int <= '9' as int {
        c as int - '0' as int
    } else if 'A' as int <= c as int <= 'F' as int {
        c as int - 'A' as int + 10
    } else {
        -1
    }
}

/// The number that a string of hexadecimal digits spells, most significant
/// digit first.
pub open spec fn hex_number(s: Seq<char>) -> int
    decreases s.len(),
{
    if s.len() == 0 {
        0
    } else {
        16 * hex_number(s.drop_last()) + hex_value(s.last())
    }
}

/// `16` to the power `w`.
pub open spec fn pow16(w: nat) -> nat
    decreases w,
{
    if w == 0 {
        1
    } else {
        16 * pow16((w - 1) as nat)
    }
}

/// Powers of 16 are positive.
proof fn lemma_pow16_positive(w: nat)
    ensures
        pow16(w) > 0,
    decreases w,
{
    if w > 0 {
        lemma_pow16_positive((w - 1) as nat);
    }
}

/// The last `w` hexadecimal digits of `x` are `w` characters, each a digit
/// `0`-`9` or an upper-case letter `A`-`F`, that spell `x` modulo `16^w`.
pub proof fn lemma_hex_digits_read_back(x: nat, w: nat)
    ensures
        hex_digits(x, w).len() == w,
        forall|i: int| 0 <= i < w ==> 0 <= #[trigger] hex_value(hex_digits(x, w)[i]) < 16,
        hex_number(hex_digits(x, w)) == x % pow16(w),
    decreases w,
{
    if w > 0 {
        let p = (w - 1) as nat;
        lemma_hex_digits_read_back(x / 16, p);
        let d = x % 16;
        let s = hex_digits(x, w);
        assert(s == hex_digits(x / 16, p).push(hex_digit(d)));
        assert(s.drop_last() =~= hex_digits(x / 16, p));
        assert(hex_value(hex_digit(d)) == d);
        assert forall|i: int| 0 <= i < w implies 0 <= #[trigger] hex_value(s[i]) < 16 by {
            if i < p {
                assert(s[i] == hex_digits(x / 16, p)[i]);
            }
        }
        lemma_pow16_positive(p);
        vstd::arithmetic::div_mod::lemma_mod_breakdown(x as int, 16, pow16(p) as int);
    }
}

/// `NodeId::to_string` writes the handle's number in hexadecimal: eight
/// characters, each a digit `0`-`9` or an upper-case letter `A`-`F`, that read
/// as a base-16 number give back the number.
pub proof fn lemma_to_string_reads_back(id: NodeId)
    requires
        id.number() < 0x1_0000_0000,
    ensures
        hex_digits(id.number(), 8).len() == 8,
        forall|i: int| 0 <= i < 8 ==> 0 <= #[trigger] hex_value(hex_digits(id.number(), 8)[i]) < 16,
        hex_number(hex_digits(id.number(), 8)) == id.number(),
{
    lemma_hex_digits_read_back(id.number(), 8);
    assert(pow16(8) == 0x1_0000_0000) by {
        reveal_with_fuel(pow16, 9);
    }
}

fn hex_char(d: u32) -> (c: char)
    requires
        d < 16,
    ensures
        c == hex_digit(d as nat),
{
    if d < 10 {
        ((48 + d) as u8) as char
    } else {
        ((55 + d) as u8) as char
    }
}

/// `String::push`: appends the character at the end.
#[verifier::external_body]
fn push_char(s: &mut String, c: char)
    ensures
        final(s)@ == old(s)@.push(c),
{
    s.push(c)
}

impl IncrementalId for NodeId {
    closed spec fn position(&self) -> nat {
        self.index as nat
    }

    open spec fn limit() -> nat {
        u32::MAX as nat
    }

    proof fn lemma_same_position_same_id(a: Self, b: Self) {
        NodeId::lemma_position_injective(a, b);
    }

    fn first() -> (r: Self) {
        NodeId { index: 0 }
    }

    fn next(&self) -> (r: Self) {
        proof {
            use_type_invariant(self);
        }
        if self.index + 1 < u32::MAX {
            NodeId { index: self.index + 1 }
        } else {
            NodeId { index: self.index }
        }
    }
}

impl NumericId for NodeId {
    fn as_index(&self) -> (r: usize) {
        proof {
            use_type_invariant(self);
        }
        self.index as usize
    }

    fn from_index(index: usize) -> (r: Self) {
        NodeId { index: index as u32 }
    }
}

/// Handle to a buffer of a pipeline; like [`NodeId`] it stands for a non-zero
/// `u32` number and stores that number minus one.
#[derive(Debug, Clone, Copy, PartialEq, Eq, Structural, PartialOrd, Ord, Hash)]
pub struct BufferId {
    index: u32,
}

impl BufferId {
    #[verifier::type_invariant]
    spec fn below_max(&self) -> bool {
        self.index < u32::MAX
    }

    /// The non-zero number this handle stands for.
    pub open spec fn number(&self) -> nat {
        self.position() + 1
    }

    pub fn get(&self) -> (r: u32)
        ensures
            r == self.number(),
    {
        proof {
            use_type_invariant(self);
        }
        self.index + 1
    }

    /// Two handles with the same position are the same handle.
    pub proof fn lemma_position_injective(a: BufferId, b: BufferId)
        requires
            a.position() == b.position(),
        ensures
            a == b,
    {
    }

    /// The id that stands for a buffer slot that no connection has claimed: the
    /// one for the number `u32::MAX`.
    pub fn placeholder() -> (r: Self)
        ensures
            r.position() == u32::MAX - 1,
    {
        BufferId { index: u32::MAX - 1 }
    }
}

impl IncrementalId for BufferId {
    closed spec fn position(&self) -> nat {
        self.index as nat
    }

    open spec fn limit() -> nat {
        u32::MAX as nat
    }

    proof fn lemma_same_position_same_id(a: Self, b: Self) {
        BufferId::lemma_position_injective(a, b);
    }

    fn first() -> (r: Self) {
        BufferId { index: 0 }
    }

    fn next(&self) -> (r: Self) {
        proof {
            use_type_invariant(self);
        }
        if self.index + 1 < u32::MAX {
            BufferId { index: self.index + 1 }
        } else {
            BufferId { index: self.index }
        }
    }
}

impl NumericId for BufferId {
    fn as_index(&self) -> (r: usize) {
        proof {
            use_type_invariant(self);
        }
        self.index as usize
    }

    fn from_index(index: usize) -> (r: Self) {
        BufferId { index: index as u32 }
    }
}

} // verus!
