use vstd::prelude::*;
use crate::text::push_char;

verus! {

/// An IPv4 address and a port.
pub struct Address {
    pub ip: (u8, u8, u8, u8),
    pub port: u16,
}

/// The character for a decimal digit `d < 10`.
pub open spec fn digit_char(d: nat) -> char {
    ((48 + d) as u8) as char
}

/// `n` written in decimal, without leading zeros ("0" for zero).
pub open spec fn decimal(n: nat) -> Seq<char>
    decreases n,
{
    if n < 10 {
        seq![digit_char(n)]
    } else {
        decimal(n / 10).push(digit_char(n % 10))
    }
}

/// Whether every character of `s` is a decimal digit.
pub open spec fn all_digits(s: Seq<char>) -> bool {
    forall|i: int| 0 <= i < s.len() ==> '0' <= #[trigger] s[i] <= '9'
}

/// The number that the decimal digits `s` write, most significant first.
pub open spec fn digits_value(s: Seq<char>) -> nat
    decreases s.len(),
{
    if s.len() == 0 {
        0
    } else {
        digits_value(s.drop_last()) * 10 + ((s.last() as u32) - 48) as nat
    }
}

/// `decimal(n)` is a non-empty run of decimal digits that reads back as `n`.
pub proof fn lemma_decimal_reads_back(n: nat)
    ensures
        decimal(n).len() > 0,
        all_digits(decimal(n)),
        digits_value(decimal(n)) == n,
    decreases n,
{
    let d = (n % 10) as nat;
    assert(((48 + d) as u8) as char as u32 == 48 + d);
    if n >= 10 {
        lemma_decimal_reads_back(n / 10);
        let s = decimal(n);
        assert(s.drop_last() =~= decimal(n / 10));
        assert(s.last() == digit_char(d));
        assert((n / 10) * 10 + n % 10 == n) by (nonlinear_arith);
        assert(digits_value(s) == digits_value(decimal(n / 10)) * 10 + d);
        assert(digits_value(decimal(n / 10)) * 10 == (n / 10) * 10);
        assert(digits_value(s) == n);
        assert(all_digits(s)) by {
            assert forall|i: int| 0 <= i < s.len() implies '0' <= #[trigger] s[i] <= '9' by {
                if i < s.len() - 1 {
                    assert(s[i] == decimal(n / 10)[i]);
                }
            }
        }
    } else {
        assert(decimal(n).drop_last() =~= Seq::<char>::empty());
        assert(decimal(n).last() == digit_char(d));
        assert(d == n);
        assert(digits_value(decimal(n)) == digits_value(Seq::<char>::empty()) * 10 + d);
        assert(digits_value(decimal(n)) == n);
    }
}

/// The text `a.b.c.d:port`.
pub open spec fn address_text(ip: (u8, u8, u8, u8), port: u16) -> Seq<char> {
    decimal(ip.0 as nat) + seq!['.'] + decimal(ip.1 as nat) + seq!['.'] + decimal(ip.2 as nat)
        + seq!['.'] + decimal(ip.3 as nat) + seq![':'] + decimal(port as nat)
}

/// Appends `n` in decimal.
pub(crate) fn push_decimal(s: &mut String, n: u64)
    ensures
        final(s)@ == old(s)@ + decimal(n as nat),
    decreases n,
{
    if n >= 10 {
        push_decimal(s, n / 10);
    }
    let d: u8 = (n % 10) as u8;
    push_char(s, (48 + d) as char);
    assert(final(s)@ =~= old(s)@ + decimal(n as nat)) by {
        if n >= 10 {
            assert(decimal(n as nat) == decimal((n / 10) as nat).push(digit_char((n % 10) as nat)));
        }
    }
}

impl Address {
    /// The address as `a.b.c.d:port`.
    pub fn to_string(&self) -> (r: String)
        ensures
            r@ == address_text(self.ip, self.port),
    {
        let mut endereco_string = String::new();
        push_decimal(&mut endereco_string, self.ip.0 as u64);
        push_char(&mut endereco_string, '.');
        push_decimal(&mut endereco_string, self.ip.1 as u64);
        push_char(&mut endereco_string, '.');
        push_decimal(&mut endereco_string, self.ip.2 as u64);
        push_char(&mut endereco_string, '.');
        push_decimal(&mut endereco_string, self.ip.3 as u64);
        push_char(&mut endereco_string, ':');
        push_decimal(&mut endereco_string, self.port as u64);
        assert(endereco_string@ =~= address_text(self.ip, self.port));
        endereco_string
    }
}

}
