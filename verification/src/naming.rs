use vstd::prelude::*;

verus! {

/// The character of a decimal digit.
pub open spec fn digit_char(d: nat) -> char {
    if d == 0 {
        '0'
    } else if d == 1 {
        '1'
    } else if d == 2 {
        '2'
    } else if d == 3 {
        '3'
    } else if d == 4 {
        '4'
    } else if d == 5 {
        '5'
    } else if d == 6 {
        '6'
    } else if d == 7 {
        '7'
    } else if d == 8 {
        '8'
    } else {
        '9'
    }
}

/// The decimal digits of `n`, most significant first, without leading zeros.
pub open spec fn decimal(n: nat) -> Seq<char>
    decreases n,
{
    if n < 10 {
        seq![digit_char(n)]
    } else {
        decimal(n / 10).push(digit_char(n % 10))
    }
}

/// The extension of every file of the store.
pub open spec fn txt_extension() -> Seq<char> {
    seq!['.', 't', 'x', 't']
}

/// The name of the write-ahead log number `index`: `foo_<index>.txt`.
pub open spec fn wal_name(index: nat) -> Seq<char> {
    seq!['f', 'o', 'o', '_'] + decimal(index) + txt_extension()
}

/// The name of the compacted log number `index`: `compact_<index>.txt`.
pub open spec fn compact_name(index: nat) -> Seq<char> {
    seq!['c', 'o', 'm', 'p', 'a', 'c', 't', '_'] + decimal(index) + txt_extension()
}

/// Appends the character of the decimal digit `d` to `s`.
fn push_digit(s: &mut String, d: u8)
    requires
        d < 10,
    ensures
        final(s)@ == old(s)@.push(digit_char(d as nat)),
{
    let digit = if d == 0 {
        "0"
    } else if d == 1 {
        "1"
    } else if d == 2 {
        "2"
    } else if d == 3 {
        "3"
    } else if d == 4 {
        "4"
    } else if d == 5 {
        "5"
    } else if d == 6 {
        "6"
    } else if d == 7 {
        "7"
    } else if d == 8 {
        "8"
    } else {
        "9"
    };
    proof {
        reveal_strlit("0");
        reveal_strlit("1");
        reveal_strlit("2");
        reveal_strlit("3");
        reveal_strlit("4");
        reveal_strlit("5");
        reveal_strlit("6");
        reveal_strlit("7");
        reveal_strlit("8");
        reveal_strlit("9");
    }
    s.append(digit);
    assert(final(s)@ =~= old(s)@.push(digit_char(d as nat)));
}

/// `prefix`, the decimal digits of `index`, and `.txt`.
fn numbered_file_name(prefix: &str, index: u8) -> (name: String)
    ensures
        name@ == prefix@ + decimal(index as nat) + txt_extension(),
{
    let mut name = String::from_str(prefix);
    let ghost start = name@;
    if index >= 100 {
        push_digit(&mut name, index / 100);
    }
    if index >= 10 {
        push_digit(&mut name, (index / 10) % 10);
    }
    push_digit(&mut name, index % 10);
    proof {
        reveal_with_fuel(decimal, 3);
        let n = index as nat;
        if n >= 100 {
            assert(decimal(n / 100) == seq![digit_char(n / 100)]);
            assert(decimal(n / 10) == decimal(n / 10 / 10).push(digit_char((n / 10) % 10)));
            assert(n / 10 / 10 == n / 100);
            assert(name@ =~= start + decimal(n));
        } else if n >= 10 {
            assert(decimal(n / 10) == seq![digit_char(n / 10)]);
            assert((n / 10) % 10 == n / 10);
            assert(name@ =~= start + decimal(n));
        } else {
            assert(name@ =~= start + decimal(n));
        }
    }
    let ghost digits = name@;
    proof {
        reveal_strlit(".txt");
    }
    name.append(".txt");
    assert(name@ =~= prefix@ + decimal(index as nat) + txt_extension());
    name
}

/// The name of the write-ahead log number `index`.
pub fn wal_file_name(index: u8) -> (name: String)
    ensures
        name@ == wal_name(index as nat),
{
    proof {
        reveal_strlit("foo_");
    }
    numbered_file_name("foo_", index)
}

/// The name of the compacted log number `index`.
pub fn compact_file_name(index: u8) -> (name: String)
    ensures
        name@ == compact_name(index as nat),
{
    proof {
        reveal_strlit("compact_");
    }
    numbered_file_name("compact_", index)
}

/// The number a string of decimal digits denotes, most significant first.
pub open spec fn numeral_value(digits: Seq<char>) -> int
    decreases digits.len(),
{
    if digits.len() == 0 {
        0
    } else {
        numeral_value(digits.drop_last()) * 10 + (digits.last() as int - '0' as int)
    }
}

proof fn lemma_digit_value(d: nat)
    requires
        d < 10,
    ensures
        digit_char(d) as int - '0' as int == d,
{
    assert('0' as int == 48);
    if d == 0 {
    } else if d == 1 {
        assert('1' as int == 49);
    } else if d == 2 {
        assert('2' as int == 50);
    } else if d == 3 {
        assert('3' as int == 51);
    } else if d == 4 {
        assert('4' as int == 52);
    } else if d == 5 {
        assert('5' as int == 53);
    } else if d == 6 {
        assert('6' as int == 54);
    } else if d == 7 {
        assert('7' as int == 55);
    } else if d == 8 {
        assert('8' as int == 56);
    } else {
        assert('9' as int == 57);
    }
}

/// Reading the digits of `decimal(n)` back gives `n`, and its first digit
/// is not a zero unless `n` is.
pub proof fn law_decimal_reads_back(n: nat)
    ensures
        numeral_value(decimal(n)) == n,
        decimal(n).len() > 0,
        decimal(n)[0] == '0' ==> n == 0,
    decreases n,
{
    if n < 10 {
        assert(decimal(n) == seq![digit_char(n)]);
        assert(seq![digit_char(n)].drop_last() =~= Seq::<char>::empty());
        lemma_digit_value(n);
        assert(numeral_value(decimal(n)) == numeral_value(decimal(n).drop_last()) * 10 + (
        decimal(n).last() as int - '0' as int));
        assert(numeral_value(Seq::<char>::empty()) == 0);
        if n != 0 {
            assert(digit_char(n) != '0');
        }
    } else {
        law_decimal_reads_back(n / 10);
        let d = decimal(n);
        assert(d.drop_last() =~= decimal(n / 10));
        assert(d.last() == digit_char(n % 10));
        lemma_digit_value(n % 10);
        assert(numeral_value(d) == numeral_value(d.drop_last()) * 10 + (d.last() as int
            - '0' as int));
        assert(n == (n / 10) * 10 + n % 10);
        assert(d[0] == decimal(n / 10)[0]);
    }
}

/// Distinct rounds get distinct file names: no two write-ahead logs, and no
/// two compacted logs, share a name.
pub proof fn law_round_names_distinct(i: nat, j: nat)
    ensures
        wal_name(i) == wal_name(j) ==> i == j,
        compact_name(i) == compact_name(j) ==> i == j,
{
    law_decimal_reads_back(i);
    law_decimal_reads_back(j);
    if wal_name(i) == wal_name(j) {
        assert(wal_name(i).len() == decimal(i).len() + 8);
        assert(wal_name(j).len() == decimal(j).len() + 8);
        assert(wal_name(i).subrange(4, 4 + decimal(i).len() as int) =~= decimal(i));
        assert(wal_name(j).subrange(4, 4 + decimal(j).len() as int) =~= decimal(j));
    }
    if compact_name(i) == compact_name(j) {
        assert(compact_name(i).len() == decimal(i).len() + 12);
        assert(compact_name(j).len() == decimal(j).len() + 12);
        assert(compact_name(i).subrange(8, 8 + decimal(i).len() as int) =~= decimal(i));
        assert(compact_name(j).subrange(8, 8 + decimal(j).len() as int) =~= decimal(j));
    }
}

} // verus!
