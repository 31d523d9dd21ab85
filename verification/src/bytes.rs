//! Little-endian numbers in rows of bytes.

use vstd::prelude::*;

verus! {

/// The 16-bit number at `i`, low byte first.
pub open spec fn le16_at(b: Seq<u8>, i: int) -> nat {
    (b[i] + 256 * b[i + 1]) as nat
}

/// The 32-bit number at `i`, low byte first.
pub open spec fn le32_at(b: Seq<u8>, i: int) -> nat {
    (b[i] + 256 * b[i + 1] + 65536 * b[i + 2] + 16777216 * b[i + 3]) as nat
}

pub fn read_le16(b: &[u8], i: usize) -> (r: u16)
    requires
        i + 2 <= b@.len(),
    ensures
        r == le16_at(b@, i as int),
{
    (b[i] as u16) + 256 * (b[i + 1] as u16)
}

pub fn read_le32(b: &[u8], i: usize) -> (r: u32)
    requires
        i + 4 <= b@.len(),
    ensures
        r == le32_at(b@, i as int),
{
    (b[i] as u32) + 256 * (b[i + 1] as u32) + 65536 * (b[i + 2] as u32) + 16777216 * (b[i + 3] as u32)
}

/// Whether the four bytes at `i` are `a`, `b`, `c` and `d`.
pub open spec fn tag_at(s: Seq<u8>, i: int, a: u8, b: u8, c: u8, d: u8) -> bool {
    s[i] == a && s[i + 1] == b && s[i + 2] == c && s[i + 3] == d
}

/// The bytes before the first zero byte, or all of them.
pub open spec fn up_to_zero(s: Seq<u8>) -> Seq<u8>
    decreases s.len(),
{
    if s.len() == 0 || s[0] == 0 {
        Seq::empty()
    } else {
        seq![s[0]] + up_to_zero(s.drop_first())
    }
}

pub proof fn lemma_up_to_zero(s: Seq<u8>, i: int)
    requires
        0 <= i <= s.len(),
        forall|j: int| 0 <= j < i ==> #[trigger] s[j] != 0,
        i < s.len() ==> s[i] == 0,
    ensures
        up_to_zero(s) == s.take(i),
    decreases s.len(),
{
    if s.len() == 0 || i == 0 {
        assert(s.take(i) =~= Seq::<u8>::empty());
    } else {
        let t = s.drop_first();
        assert(s[0] != 0);
        assert forall|j: int| 0 <= j < i - 1 implies #[trigger] t[j] != 0 by {
            assert(t[j] == s[j + 1]);
        }
        lemma_up_to_zero(t, i - 1);
        assert(seq![s[0]] + t.take(i - 1) =~= s.take(i));
    }
}

/// Where the first zero byte of `b` between `from` and `to` stands, or `to`.
pub fn find_zero(b: &[u8], from: usize, to: usize) -> (r: usize)
    requires
        from <= to <= b@.len(),
    ensures
        from <= r <= to,
        up_to_zero(b@.subrange(from as int, to as int)) == b@.subrange(from as int, r as int),
{
    let mut i: usize = from;
    while i < to && b[i] != 0
        invariant
            from <= i <= to <= b@.len(),
            forall|j: int| from <= j < i ==> #[trigger] b@[j] != 0,
        decreases to - i,
    {
        i += 1;
    }
    proof {
        let s = b@.subrange(from as int, to as int);
        assert forall|j: int| 0 <= j < i - from implies #[trigger] s[j] != 0 by {
            assert(s[j] == b@[from + j]);
        }
        lemma_up_to_zero(s, i - from);
        assert(s.take(i - from) =~= b@.subrange(from as int, i as int));
    }
    i
}

} // verus!
