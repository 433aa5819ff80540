//! Peer addresses and their fixed-width text form `DDD.DDD.DDD.DDD:PPPPP`.

use vstd::prelude::*;

verus! {

/// An IPv4 address and a TCP port that identify one node of the overlay.
#[derive(Clone, Copy, Debug, PartialEq, Eq, Hash, Structural)]
pub struct PeerAddr {
    pub ip0: u8,
    pub ip1: u8,
    pub ip2: u8,
    pub ip3: u8,
    pub port: u16,
}

/// Number of bytes in the text form of one address.
pub const ADDR_TEXT_LEN: usize = 21;

impl PeerAddr {
    pub open spec fn localhost_spec(port: u16) -> PeerAddr {
        PeerAddr { ip0: 127, ip1: 0, ip2: 0, ip3: 1, port }
    }

    /// The loopback address `127.0.0.1` with the given port.
    #[verifier::when_used_as_spec(localhost_spec)]
    pub fn localhost(port: u16) -> (r: PeerAddr)
        ensures
            r == PeerAddr::localhost_spec(port),
    {
        PeerAddr { ip0: 127, ip1: 0, ip2: 0, ip3: 1, port }
    }
}

pub open spec fn pow10(w: nat) -> nat
    decreases w,
{
    if w == 0 {
        1
    } else {
        10 * pow10((w - 1) as nat)
    }
}

/// The `w` lowest decimal digits of `n` as ASCII bytes, most significant first.
pub open spec fn digits(n: nat, w: nat) -> Seq<u8>
    decreases w,
{
    if w == 0 {
        seq![]
    } else {
        digits(n / 10, (w - 1) as nat).push((48 + n % 10) as u8)
    }
}

pub open spec fn is_digit(b: u8) -> bool {
    48 <= b <= 57
}

pub open spec fn all_digits(s: Seq<u8>) -> bool {
    forall|i: int| 0 <= i < s.len() ==> is_digit(#[trigger] s[i])
}

/// The number that a run of ASCII digits spells.
pub open spec fn digits_value(s: Seq<u8>) -> nat
    decreases s.len(),
{
    if s.len() == 0 {
        0
    } else {
        digits_value(s.drop_last()) * 10 + (s.last() - 48) as nat
    }
}

/// The text form of an address: each octet in three digits, the port in five.
pub open spec fn addr_text(a: PeerAddr) -> Seq<u8> {
    digits(a.ip0 as nat, 3) + seq![46u8] + digits(a.ip1 as nat, 3) + seq![46u8] + digits(
        a.ip2 as nat,
        3,
    ) + seq![46u8] + digits(a.ip3 as nat, 3) + seq![58u8] + digits(a.port as nat, 5)
}

/// The address that a 21-byte text spells, if it is well formed.
pub open spec fn addr_of(t: Seq<u8>) -> Option<PeerAddr> {
    let f0 = t.subrange(0, 3);
    let f1 = t.subrange(4, 7);
    let f2 = t.subrange(8, 11);
    let f3 = t.subrange(12, 15);
    let fp = t.subrange(16, 21);
    if t.len() == 21 && all_digits(f0) && all_digits(f1) && all_digits(f2) && all_digits(f3)
        && all_digits(fp) && t[3] == 46 && t[7] == 46 && t[11] == 46 && t[15] == 58
        && digits_value(f0) < 256 && digits_value(f1) < 256 && digits_value(f2) < 256
        && digits_value(f3) < 256 && digits_value(fp) < 65536 {
        Some(
            PeerAddr {
                ip0: digits_value(f0) as u8,
                ip1: digits_value(f1) as u8,
                ip2: digits_value(f2) as u8,
                ip3: digits_value(f3) as u8,
                port: digits_value(fp) as u16,
            },
        )
    } else {
        None
    }
}

pub proof fn lemma_digits(n: nat, w: nat)
    requires
        n < pow10(w),
    ensures
        digits(n, w).len() == w,
        all_digits(digits(n, w)),
        digits_value(digits(n, w)) == n,
    decreases w,
{
    if w > 0 {
        let p = pow10((w - 1) as nat);
        assert(n / 10 < p) by (nonlinear_arith)
            requires
                n < 10 * p,
        ;
        lemma_digits(n / 10, (w - 1) as nat);
        let s = digits(n, w);
        assert(s.drop_last() =~= digits(n / 10, (w - 1) as nat));
    }
}

/// Reading back the text form of an address gives the address.
pub proof fn lemma_addr_text(a: PeerAddr)
    ensures
        addr_text(a).len() == 21,
        addr_of(addr_text(a)) == Some(a),
        forall|j: int|
            0 <= j < 21 ==> is_digit(#[trigger] addr_text(a)[j]) || addr_text(a)[j] == 46
                || addr_text(a)[j] == 58,
{
    reveal_with_fuel(pow10, 6);
    lemma_digits(a.ip0 as nat, 3);
    lemma_digits(a.ip1 as nat, 3);
    lemma_digits(a.ip2 as nat, 3);
    lemma_digits(a.ip3 as nat, 3);
    lemma_digits(a.port as nat, 5);
    let t = addr_text(a);
    assert(t.subrange(0, 3) =~= digits(a.ip0 as nat, 3));
    assert(t.subrange(4, 7) =~= digits(a.ip1 as nat, 3));
    assert(t.subrange(8, 11) =~= digits(a.ip2 as nat, 3));
    assert(t.subrange(12, 15) =~= digits(a.ip3 as nat, 3));
    assert(t.subrange(16, 21) =~= digits(a.port as nat, 5));
    assert forall|j: int| 0 <= j < 21 implies is_digit(#[trigger] t[j]) || t[j] == 46 || t[j]
        == 58 by {
        if j < 3 {
            assert(t[j] == t.subrange(0, 3)[j]);
        } else if 4 <= j < 7 {
            assert(t[j] == t.subrange(4, 7)[j - 4]);
        } else if 8 <= j < 11 {
            assert(t[j] == t.subrange(8, 11)[j - 8]);
        } else if 12 <= j < 15 {
            assert(t[j] == t.subrange(12, 15)[j - 12]);
        } else if 16 <= j < 21 {
            assert(t[j] == t.subrange(16, 21)[j - 16]);
        }
    }
}

/// Appends the `w` lowest decimal digits of `n` to `out`.
pub fn write_digits(out: &mut Vec<u8>, n: u32, w: usize)
    ensures
        final(out)@ == old(out)@ + digits(n as nat, w as nat),
    decreases w,
{
    if w > 0 {
        write_digits(out, n / 10, w - 1);
        out.push((48 + n % 10) as u8);
        assert(digits(n as nat, w as nat) == digits((n / 10) as nat, (w - 1) as nat).push(
            (48 + n % 10) as u8,
        ));
        assert(final(out)@ =~= old(out)@ + digits(n as nat, w as nat));
    }
}

/// Reads the `w` ASCII digits of `s` that start at `start`.
pub fn read_digits(s: &Vec<u8>, start: usize, w: usize) -> (r: Option<u32>)
    requires
        start + w <= s@.len(),
        w <= 5,
    ensures
        r is Some <==> all_digits(s@.subrange(start as int, start + w)),
        r is Some ==> r->0 as nat == digits_value(s@.subrange(start as int, start + w)),
{
    let n = s.len();
    let mut v: u32 = 0;
    let mut i: usize = 0;
    while i < w
        invariant
            i <= w <= 5,
            n == s@.len(),
            start + w <= s@.len(),
            all_digits(s@.subrange(start as int, start + i)),
            v as nat == digits_value(s@.subrange(start as int, start + i)),
            v < pow10(i as nat),
        decreases w - i,
    {
        let b = s[start + i];
        if b < 48 || b > 57 {
            assert(!all_digits(s@.subrange(start as int, start + w))) by {
                assert(s@.subrange(start as int, start + w)[i as int] == b);
            }
            return None;
        }
        reveal_with_fuel(pow10, 6);
        assert(pow10(i as nat) <= 10000) by {
            assert(i <= 4);
        }
        let ghost old_sub = s@.subrange(start as int, start + i);
        v = v * 10 + (b - 48) as u32;
        i = i + 1;
        let ghost sub = s@.subrange(start as int, start + i);
        assert(sub.drop_last() =~= old_sub);
        assert(all_digits(sub)) by {
            assert forall|j: int| 0 <= j < sub.len() implies is_digit(#[trigger] sub[j]) by {
                if j < sub.len() - 1 {
                    assert(sub[j] == old_sub[j]);
                }
            }
        }
    }
    Some(v)
}

} // verus!
