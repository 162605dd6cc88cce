//! Numbers in bytes.

use vstd::prelude::*;

verus! {

/// The number that bytes spell, most significant first.
pub open spec fn be_value(s: Seq<u8>) -> nat
    decreases s.len(),
{
    if s.len() == 0 {
        0
    } else {
        be_value(s.drop_last()) * 256 + s.last() as nat
    }
}

/// The number that four bytes spell, least significant first.
pub open spec fn le32(s: Seq<u8>) -> nat {
    s[0] as nat + s[1] as nat * 0x100 + s[2] as nat * 0x1_0000 + s[3] as nat * 0x100_0000
}

/// The bytes of `s` from `at` on, `n` of them.
pub open spec fn slice(s: Seq<u8>, at: int, n: int) -> Seq<u8> {
    s.subrange(at, at + n)
}

/// How large a number of `n` bytes can be.
pub open spec fn byte_power(n: nat) -> nat
    decreases n,
{
    if n == 0 {
        1
    } else {
        256 * byte_power((n - 1) as nat)
    }
}

/// A number of `n` bytes is smaller than `byte_power(n)`.
pub proof fn lemma_be_bound(s: Seq<u8>)
    ensures
        be_value(s) < byte_power(s.len()),
    decreases s.len(),
{
    if s.len() > 0 {
        lemma_be_bound(s.drop_last());
    }
}

/// The bounds of numbers of up to eight bytes.
pub proof fn lemma_byte_powers()
    ensures
        byte_power(1) == 0x100,
        byte_power(2) == 0x1_0000,
        byte_power(3) == 0x100_0000,
        byte_power(4) == 0x1_0000_0000,
        byte_power(5) == 0x100_0000_0000,
        byte_power(6) == 0x1_0000_0000_0000,
        byte_power(7) == 0x100_0000_0000_0000,
        byte_power(8) == 0x1_0000_0000_0000_0000,
{
    reveal_with_fuel(byte_power, 9);
}

/// A longer run of bytes can spell a larger number.
proof fn lemma_byte_power_grows(m: nat, n: nat)
    requires
        m <= n,
    ensures
        byte_power(m) <= byte_power(n),
    decreases n - m,
{
    if m < n {
        lemma_byte_power_grows(m, (n - 1) as nat);
    }
}

/// A number of at most eight bytes fits in 64 bits.
pub proof fn lemma_byte_power_at_most_eight(n: nat)
    requires
        n <= 8,
    ensures
        byte_power(n) <= byte_power(8),
{
    lemma_byte_power_grows(n, 8);
}

/// Reads `n` bytes from `at` on, most significant first.
pub fn read_be(data: &[u8], at: usize, n: usize) -> (r: u64)
    requires
        n <= 8,
        at + n <= data@.len(),
    ensures
        r == be_value(slice(data@, at as int, n as int)),
{
    let len: usize = data.len();
    let mut r: u64 = 0;
    let mut i: usize = 0;
    assert(slice(data@, at as int, 0) =~= Seq::<u8>::empty());
    while i < n
        invariant
            i <= n <= 8,
            at + n <= len == data@.len(),
            r == be_value(slice(data@, at as int, i as int)),
        decreases n - i,
    {
        let ghost before = slice(data@, at as int, i as int);
        let ghost now = slice(data@, at as int, i + 1);
        proof {
            assert(now.drop_last() =~= before);
            assert(now.last() == data@[at + i]);
            lemma_be_bound(now);
            lemma_byte_power_grows((i + 1) as nat, 8);
            lemma_byte_powers();
        }
        r = r * 256 + data[at + i] as u64;
        i += 1;
    }
    r
}

/// Reads four bytes from `at` on, least significant first.
pub fn read_le32(data: &[u8], at: usize) -> (r: u32)
    requires
        at + 4 <= data@.len(),
    ensures
        r == le32(slice(data@, at as int, 4)),
{
    data[at] as u32 + data[at + 1] as u32 * 0x100 + data[at + 2] as u32 * 0x1_0000 + data[at
        + 3] as u32 * 0x100_0000
}

/// Decides whether four bytes spell a name.
pub fn is_name_at(data: &[u8], at: usize, a: u8, b: u8, c: u8, d: u8) -> (r: bool)
    requires
        at + 4 <= data@.len(),
    ensures
        r == (slice(data@, at as int, 4) == seq![a, b, c, d]),
{
    let r = data[at] == a && data[at + 1] == b && data[at + 2] == c && data[at + 3] == d;
    let ghost s = slice(data@, at as int, 4);
    assert(s[0] == data@[at as int] && s[1] == data@[at + 1] && s[2] == data@[at + 2] && s[3]
        == data@[at + 3]);
    assert(r ==> s =~= seq![a, b, c, d]);
    r
}

/// The `n` bytes that spell a number, most significant first.
pub open spec fn be_bytes(v: nat, n: nat) -> Seq<u8>
    decreases n,
{
    if n == 0 {
        Seq::empty()
    } else {
        be_bytes(v / 256, (n - 1) as nat).push((v % 256) as u8)
    }
}

/// A number reads as it was written.
pub proof fn law_numbers_are_read_back(v: nat, n: nat)
    requires
        v < byte_power(n),
    ensures
        be_bytes(v, n).len() == n,
        be_value(be_bytes(v, n)) == v,
    decreases n,
{
    if n > 0 {
        assert(v / 256 < byte_power((n - 1) as nat)) by (nonlinear_arith)
            requires
                v < 256 * byte_power((n - 1) as nat),
        ;
        law_numbers_are_read_back(v / 256, (n - 1) as nat);
        assert(be_bytes(v, n).drop_last() =~= be_bytes(v / 256, (n - 1) as nat));
    }
}

/// How many bytes a number is written with.
pub proof fn lemma_be_bytes_len(v: nat, n: nat)
    ensures
        be_bytes(v, n).len() == n,
    decreases n,
{
    if n > 0 {
        lemma_be_bytes_len(v / 256, (n - 1) as nat);
    }
}

/// The first byte weighs the most.
pub proof fn lemma_first_byte(s: Seq<u8>)
    requires
        s.len() > 0,
    ensures
        be_value(s) == s[0] * byte_power((s.len() - 1) as nat) + be_value(s.drop_first()),
    decreases s.len(),
{
    if s.len() == 1 {
        assert(s.drop_last() =~= Seq::<u8>::empty());
        assert(s.drop_first() =~= Seq::<u8>::empty());
        assert(s[0] * byte_power(0) == s[0]) by {
            assert(byte_power(0) == 1);
        }
    } else {
        let t = s.drop_last();
        lemma_first_byte(t);
        assert(t.drop_first() =~= s.drop_first().drop_last());
        let p = byte_power((t.len() - 1) as nat);
        assert(byte_power((s.len() - 1) as nat) == 256 * p);
        assert((s[0] * p + be_value(t.drop_first())) * 256 == s[0] * (256 * p) + be_value(
            t.drop_first(),
        ) * 256) by (nonlinear_arith);
    }
}

/// The four bytes that spell a number, least significant first, read as it.
pub proof fn law_small_end_first_is_read_back(v: u32)
    ensures
        le32(
            seq![
                (v % 0x100) as u8,
                (v / 0x100 % 0x100) as u8,
                (v / 0x1_0000 % 0x100) as u8,
                (v / 0x100_0000) as u8,
            ],
        ) == v,
{
}

} // verus!
