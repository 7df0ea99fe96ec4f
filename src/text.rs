use vstd::prelude::*;

verus! {

/// The character of the decimal digit `d`.
pub open spec fn digit_char(d: int) -> char {
    seq!['0', '1', '2', '3', '4', '5', '6', '7', '8', '9'][d]
}

/// The decimal numeral of `n`, without leading zeros.
pub open spec fn nat_text(n: nat) -> Seq<char>
    decreases n,
{
    if n < 10 {
        seq![digit_char(n as int)]
    } else {
        nat_text(n / 10).push(digit_char((n % 10) as int))
    }
}

/// The decimal numeral of `v`, with a leading `-` when negative.
pub open spec fn int_text(v: int) -> Seq<char> {
    if v < 0 {
        seq!['-'] + nat_text((-v) as nat)
    } else {
        nat_text(v as nat)
    }
}

/// Each key as a numeral followed by a comma, in order.
pub open spec fn list_text(s: Seq<i32>) -> Seq<char>
    decreases s.len(),
{
    if s.len() == 0 {
        Seq::empty()
    } else {
        list_text(s.drop_last()) + int_text(s.last() as int) + seq![',']
    }
}

/// The text of two lists one after the other is the text of each, one
/// after the other.
pub proof fn lemma_list_text_concat(a: Seq<i32>, b: Seq<i32>)
    ensures
        list_text(a + b) == list_text(a) + list_text(b),
    decreases b.len(),
{
    if b.len() == 0 {
        assert(a + b =~= a);
        assert(list_text(a) + list_text(b) =~= list_text(a));
    } else {
        lemma_list_text_concat(a, b.drop_last());
        assert((a + b).drop_last() =~= a + b.drop_last());
        assert((a + b).last() == b.last());
        assert(list_text(a + b) =~= list_text(a) + list_text(b));
    }
}

/// The text of a one-key list is its numeral and a comma.
pub proof fn lemma_list_text_single(v: i32)
    ensures
        list_text(seq![v]) == int_text(v as int) + seq![','],
{
    let s = seq![v];
    assert(s.drop_last() =~= Seq::<i32>::empty());
    assert(list_text(s.drop_last()) == Seq::<char>::empty());
    assert(s.last() == v);
    assert(list_text(s) =~= int_text(v as int) + seq![',']);
}

fn digit_str(d: u32) -> (r: &'static str)
    requires
        d < 10,
    ensures
        r@ == seq![digit_char(d as int)],
{
    match d {
        0 => {
            proof { reveal_strlit("0"); }
            "0"
        },
        1 => {
            proof { reveal_strlit("1"); }
            "1"
        },
        2 => {
            proof { reveal_strlit("2"); }
            "2"
        },
        3 => {
            proof { reveal_strlit("3"); }
            "3"
        },
        4 => {
            proof { reveal_strlit("4"); }
            "4"
        },
        5 => {
            proof { reveal_strlit("5"); }
            "5"
        },
        6 => {
            proof { reveal_strlit("6"); }
            "6"
        },
        7 => {
            proof { reveal_strlit("7"); }
            "7"
        },
        8 => {
            proof { reveal_strlit("8"); }
            "8"
        },
        _ => {
            proof { reveal_strlit("9"); }
            "9"
        },
    }
}

fn push_nat(out: &mut String, n: u32)
    ensures
        final(out)@ == old(out)@ + nat_text(n as nat),
    decreases n,
{
    if n >= 10 {
        push_nat(out, n / 10);
    }
    out.append(digit_str(n % 10));
    assert(final(out)@ =~= old(out)@ + nat_text(n as nat));
}

/// Appends the numeral of `v` and a comma to `out`.
pub fn push_item(out: &mut String, v: i32)
    ensures
        final(out)@ == old(out)@ + int_text(v as int) + seq![','],
{
    proof {
        reveal_strlit("-");
        reveal_strlit(",");
    }
    if v < 0 {
        out.append("-");
        let m: u32 = (-(v as i64)) as u32;
        push_nat(out, m);
    } else {
        push_nat(out, v as u32);
    }
    out.append(",");
    assert(final(out)@ =~= old(out)@ + int_text(v as int) + seq![',']);
}

} // verus!
