use crate::bits::Bits;
use vstd::prelude::*;
use vstd::string::StringExecFns;

verus! {

/// The decimal digit `d`.
pub open spec fn digit_char(d: nat) -> char {
    if d == 0 {
        '0'
    } else if d == 1 {
        '1'
    } else if d == 2 {
        '2'
    } else if d == 3 {
        '3'
    } else if d == 4 {
        '4'
    } else if d == 5 {
        '5'
    } else if d == 6 {
        '6'
    } else if d == 7 {
        '7'
    } else if d == 8 {
        '8'
    } else {
        '9'
    }
}

/// `n` in decimal, without leading zeros.
pub open spec fn decimal(n: nat) -> Seq<char>
    decreases n,
{
    if n < 10 {
        seq![digit_char(n)]
    } else {
        decimal(n / 10) + seq![digit_char(n % 10)]
    }
}

/// The values of `s` in decimal, separated by `", "`.
pub open spec fn listing<T: Bits>(s: Seq<T>) -> Seq<char>
    decreases s.len(),
{
    if s.len() == 0 {
        Seq::empty()
    } else if s.len() == 1 {
        decimal(s[0].value())
    } else {
        listing(s.drop_last()) + seq![',', ' '] + decimal(s.last().value())
    }
}

/// `{a, b, c}`: the values of `s` in decimal, in braces.
pub open spec fn braces<T: Bits>(s: Seq<T>) -> Seq<char> {
    seq!['{'] + listing(s) + seq!['}']
}

/// The one-character string of the decimal digit `d`.
fn digit_str(d: u128) -> (r: &'static str)
    requires
        d < 10,
    ensures
        r@ == seq![digit_char(d as nat)],
{
    if d == 0 {
        proof {
            reveal_strlit("0");
        }
        "0"
    } else if d == 1 {
        proof {
            reveal_strlit("1");
        }
        "1"
    } else if d == 2 {
        proof {
            reveal_strlit("2");
        }
        "2"
    } else if d == 3 {
        proof {
            reveal_strlit("3");
        }
        "3"
    } else if d == 4 {
        proof {
            reveal_strlit("4");
        }
        "4"
    } else if d == 5 {
        proof {
            reveal_strlit("5");
        }
        "5"
    } else if d == 6 {
        proof {
            reveal_strlit("6");
        }
        "6"
    } else if d == 7 {
        proof {
            reveal_strlit("7");
        }
        "7"
    } else if d == 8 {
        proof {
            reveal_strlit("8");
        }
        "8"
    } else {
        proof {
            reveal_strlit("9");
        }
        "9"
    }
}

/// Appends `n` in decimal.
fn push_decimal(out: &mut String, n: u128)
    ensures
        final(out)@ == old(out)@ + decimal(n as nat),
    decreases n,
{
    if n >= 10 {
        push_decimal(out, n / 10);
    }
    out.append(digit_str(n % 10));
    assert(final(out)@ =~= old(out)@ + decimal(n as nat));
}

/// Renders `members` as `{a, b, c}`, in the order given.
pub fn render_set<T: Bits>(members: &[T]) -> (r: String)
    ensures
        r@ == braces(members@),
{
    let mut out = String::new();
    proof {
        reveal_strlit("{");
        reveal_strlit("}");
    }
    out.append("{");
    let mut i: usize = 0;
    while i < members.len()
        invariant
            i <= members@.len(),
            out@ == seq!['{'] + listing(members@.subrange(0, i as int)),
        decreases members@.len() - i,
    {
        let ghost prefix = members@.subrange(0, i as int);
        let ghost next = members@.subrange(0, i + 1);
        assert(next.drop_last() =~= prefix);
        if i > 0 {
            proof {
                reveal_strlit(", ");
            }
            out.append(", ");
        }
        push_decimal(&mut out, members[i].to_u128());
        proof {
            assert(next.last() == members@[i as int]);
            if i == 0 {
                assert(listing(next) == decimal(members@[0].value()));
                assert(listing(prefix) == Seq::<char>::empty());
            } else {
                assert(listing(next) == listing(prefix) + seq![',', ' '] + decimal(
                    members@[i as int].value(),
                ));
            }
        }
        i = i + 1;
        assert(out@ =~= seq!['{'] + listing(next));
    }
    out.append("}");
    assert(members@.subrange(0, members@.len() as int) =~= members@);
    assert(out@ =~= braces(members@));
    out
}

} // verus!
