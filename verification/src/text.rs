//! Numbers as text.

use crate::data_stores::file_name::decimal;
use vstd::prelude::*;

verus! {

pub open spec fn digit(d: nat) -> char {
    (48 + d) as char
}

/// A number in decimal.
pub open spec fn decimal_text(n: nat) -> Seq<char>
    decreases n,
{
    if n < 10 {
        seq![digit(n)]
    } else {
        decimal_text(n / 10).push(digit(n % 10))
    }
}

/// Numbers with commas between them.
pub open spec fn comma_text(ids: Seq<u32>) -> Seq<char>
    decreases ids.len(),
{
    if ids.len() == 0 {
        Seq::empty()
    } else if ids.len() == 1 {
        decimal_text(ids[0] as nat)
    } else {
        comma_text(ids.drop_last()) + ", "@ + decimal_text(ids.last() as nat)
    }
}

/// Numbers with commas between them, in brackets.
pub open spec fn list_text(ids: Seq<u32>) -> Seq<char> {
    "["@ + comma_text(ids) + "]"@
}

/// A number as text reads as it does in a file's name, where it is not padded.
pub proof fn lemma_decimal_text(n: nat, i: int)
    ensures
        decimal_text(n).len() == decimal(n).len(),
        0 <= i < decimal_text(n).len() ==> decimal_text(n)[i] == decimal(n)[i] as char,
    decreases n,
{
    if n >= 10 {
        lemma_decimal_text(n / 10, i);
    }
}

/// The text of a list is that of its parts with a comma between them.
pub proof fn lemma_comma_text(a: Seq<u32>, b: Seq<u32>)
    requires
        a.len() > 0,
        b.len() > 0,
    ensures
        comma_text(a + b) == comma_text(a) + ", "@ + comma_text(b),
        a.len() == 1 ==> list_text(a) == "["@ + decimal_text(a[0] as nat) + "]"@,
        list_text(Seq::empty()) == "["@ + "]"@,
    decreases b.len(),
{
    assert("["@ + Seq::<char>::empty() =~= "["@);
    if b.len() == 1 {
        assert((a + b).drop_last() =~= a);
    } else {
        lemma_comma_text(a, b.drop_last());
        assert((a + b).drop_last() =~= a + b.drop_last());
        assert(comma_text(a + b) =~= comma_text(a) + ", "@ + comma_text(b));
    }
}

fn digit_str(d: u64) -> (s: &'static str)
    requires
        d < 10,
    ensures
        s@ == seq![digit(d as nat)],
{
    proof {
        reveal_strlit("0");
        reveal_strlit("1");
        reveal_strlit("2");
        reveal_strlit("3");
        reveal_strlit("4");
        reveal_strlit("5");
        reveal_strlit("6");
        reveal_strlit("7");
        reveal_strlit("8");
        reveal_strlit("9");
    }
    let s: &'static str = match d {
        0 => "0",
        1 => "1",
        2 => "2",
        3 => "3",
        4 => "4",
        5 => "5",
        6 => "6",
        7 => "7",
        8 => "8",
        _ => "9",
    };
    assert(s@ =~= seq![digit(d as nat)]);
    s
}

/// A number in decimal.
pub fn decimal_string(n: u64) -> (s: String)
    ensures
        s@ == decimal_text(n as nat),
    decreases n,
{
    if n < 10 {
        String::from_str(digit_str(n))
    } else {
        let mut s = decimal_string(n / 10);
        s.append(digit_str(n % 10));
        assert(s@ =~= decimal_text(n as nat));
        s
    }
}

/// Numbers with commas between them, in brackets.
pub fn list_string(ids: &Vec<u32>) -> (s: String)
    ensures
        s@ == list_text(ids@),
{
    let mut s = String::from_str("[");
    let mut i: usize = 0;
    assert(s@ + comma_text(ids@.take(0)) =~= s@);
    while i < ids.len()
        invariant
            i <= ids@.len(),
            s@ == "["@ + comma_text(ids@.take(i as int)),
        decreases ids@.len() - i,
    {
        proof {
            assert(ids@.take(i + 1).drop_last() =~= ids@.take(i as int));
            assert(ids@.take(i + 1).last() == ids@[i as int]);
        }
        let ghost before = comma_text(ids@.take(i as int));
        if i > 0 {
            s.append(", ");
        }
        s.append(decimal_string(ids[i] as u64).as_str());
        proof {
            if i > 0 {
                assert(s@ =~= "["@ + (before + ", "@ + decimal_text(ids@[i as int] as nat)));
            } else {
                assert(before =~= Seq::<char>::empty());
                assert(s@ =~= "["@ + decimal_text(ids@[0] as nat));
            }
        }
        i = i + 1;
    }
    assert(ids@.take(i as int) =~= ids@);
    s.append("]");
    s
}

} // verus!
