//! Decimal numerals, for messages and file names.

use vstd::prelude::*;
use vstd::string::*;

verus! {

/// The character of a decimal digit.
pub open spec fn digit(d: nat) -> char {
    if d == 0 {
        '0'
    } else if d == 1 {
        '1'
    } else if d == 2 {
        '2'
    } else if d == 3 {
        '3'
    } else if d == 4 {
        '4'
    } else if d == 5 {
        '5'
    } else if d == 6 {
        '6'
    } else if d == 7 {
        '7'
    } else if d == 8 {
        '8'
    } else {
        '9'
    }
}

/// The decimal numeral of `n`, without leading zeros.
pub open spec fn numeral(n: nat) -> Seq<char>
    decreases n,
{
    if n < 10 {
        seq![digit(n)]
    } else {
        numeral(n / 10).push(digit(n % 10))
    }
}

/// `n` zeros.
pub open spec fn zeros(n: nat) -> Seq<char> {
    Seq::new(n, |i: int| '0')
}

/// The decimal numeral of `n`, padded with zeros on the left to at least six digits.
pub open spec fn numeral6(n: nat) -> Seq<char> {
    let s = numeral(n);
    if s.len() < 6 {
        zeros((6 - s.len()) as nat) + s
    } else {
        s
    }
}

/// Name of the table file with number `file_num`.
pub open spec fn table_file_name_spec(file_num: u64) -> Seq<char> {
    numeral6(file_num as nat) + seq!['.', 's', 's', 't']
}

fn push_digit(s: &mut String, d: u64)
    requires
        d < 10,
    ensures
        final(s)@ == old(s)@.push(digit(d as nat)),
{
    proof {
        reveal_strlit("0");
        reveal_strlit("1");
        reveal_strlit("2");
        reveal_strlit("3");
        reveal_strlit("4");
        reveal_strlit("5");
        reveal_strlit("6");
        reveal_strlit("7");
        reveal_strlit("8");
        reveal_strlit("9");
    }
    let ghost before = s@;
    if d == 0 {
        s.append("0");
    } else if d == 1 {
        s.append("1");
    } else if d == 2 {
        s.append("2");
    } else if d == 3 {
        s.append("3");
    } else if d == 4 {
        s.append("4");
    } else if d == 5 {
        s.append("5");
    } else if d == 6 {
        s.append("6");
    } else if d == 7 {
        s.append("7");
    } else if d == 8 {
        s.append("8");
    } else {
        s.append("9");
    }
    assert(s@ =~= before.push(digit(d as nat)));
}

/// Appends the decimal numeral of `n` to `s`.
pub fn push_decimal(s: &mut String, n: u64)
    ensures
        final(s)@ == old(s)@ + numeral(n as nat),
    decreases n,
{
    let ghost before = s@;
    if n < 10 {
        push_digit(s, n);
        assert(s@ =~= before + numeral(n as nat));
    } else {
        push_decimal(s, n / 10);
        push_digit(s, n % 10);
        assert(s@ =~= before + numeral(n as nat));
    }
}

/// Number of digits in the decimal numeral of `n`.
fn count_digits(n: u64) -> (c: u64)
    ensures
        c == numeral(n as nat).len(),
        1 <= c <= 1 + n,
    decreases n,
{
    if n < 10 {
        1
    } else {
        count_digits(n / 10) + 1
    }
}

/// Name of the file that holds the table with number `file_num`: the number, padded to six
/// digits, and the extension `.sst`.
pub fn table_file_name(file_num: u64) -> (name: String)
    ensures
        name@ == table_file_name_spec(file_num),
{
    let mut s = String::new();
    let digits: u64 = count_digits(file_num);
    let mut have: u64 = digits;
    assert(s@ =~= zeros(0));
    while have < 6
        invariant
            digits <= have,
            digits < 6 ==> have <= 6,
            digits >= 6 ==> have == digits,
            s@ == zeros((have - digits) as nat),
        decreases 6 - have,
    {
        let ghost before = s@;
        push_digit(&mut s, 0);
        have = have + 1;
        assert(s@ =~= zeros((have - digits) as nat));
    }
    push_decimal(&mut s, file_num);
    assert(s@ =~= numeral6(file_num as nat));
    proof {
        reveal_strlit(".sst");
    }
    s.append(".sst");
    assert(s@ =~= table_file_name_spec(file_num));
    s
}

/// Six digits or more follow the number exactly, so two tables never share a file name.
pub proof fn law_table_file_names_differ(a: u64, b: u64)
    requires
        a != b,
    ensures
        table_file_name_spec(a) != table_file_name_spec(b),
{
    let na = numeral6(a as nat);
    let nb = numeral6(b as nat);
    if table_file_name_spec(a) == table_file_name_spec(b) {
        assert(table_file_name_spec(a).len() == na.len() + 4);
        assert(table_file_name_spec(b).len() == nb.len() + 4);
        assert(na =~= table_file_name_spec(a).take(na.len() as int));
        assert(nb =~= table_file_name_spec(b).take(nb.len() as int));
        assert(na == nb);
        lemma_value_of_padded(a as nat);
        lemma_value_of_padded(b as nat);
    }
}

/// The number that a decimal numeral stands for.
pub open spec fn numeral_value(s: Seq<char>) -> int
    decreases s.len(),
{
    if s.len() == 0 {
        0
    } else {
        numeral_value(s.drop_last()) * 10 + (s.last() as int - '0' as int)
    }
}

proof fn lemma_value_of_numeral(n: nat)
    ensures
        numeral_value(numeral(n)) == n,
        numeral(n).len() >= 1,
    decreases n,
{
    reveal_with_fuel(numeral_value, 2);
    if n < 10 {
        assert(numeral(n).drop_last() =~= Seq::<char>::empty());
    } else {
        lemma_value_of_numeral(n / 10);
        assert(numeral(n).drop_last() =~= numeral(n / 10));
    }
}

proof fn lemma_leading_zeros(k: nat, s: Seq<char>)
    ensures
        numeral_value(zeros(k) + s) == numeral_value(s),
    decreases s.len(), k,
{
    let t = zeros(k) + s;
    if s.len() > 0 {
        lemma_leading_zeros(k, s.drop_last());
        assert(t.drop_last() =~= zeros(k) + s.drop_last());
    } else if k > 0 {
        lemma_leading_zeros((k - 1) as nat, s);
        assert(t.drop_last() =~= zeros((k - 1) as nat) + s);
    } else {
        assert(t =~= s);
    }
}

proof fn lemma_value_of_padded(n: nat)
    ensures
        numeral_value(numeral6(n)) == n,
{
    lemma_value_of_numeral(n);
    let s = numeral(n);
    if s.len() < 6 {
        lemma_leading_zeros((6 - s.len()) as nat, s);
    }
}

/// A numeral stands for its number, in decimal digits and without leading zeros.
pub proof fn law_numeral(n: nat)
    ensures
        numeral_value(numeral(n)) == n,
        numeral(n).len() >= 1,
        forall|i: int| 0 <= i < numeral(n).len() ==> '0' <= #[trigger] numeral(n)[i] <= '9',
        numeral(n).len() > 1 ==> numeral(n)[0] != '0',
{
    lemma_value_of_numeral(n);
    lemma_digits(n);
}

/// The file name of a table: its number in decimal digits, six at least and no more than it needs,
/// and the extension.
pub proof fn law_table_file_name(n: u64)
    ensures
        ({
            let name = table_file_name_spec(n);
            let k = name.len() - 4;
            &&& k >= 6
            &&& k > 6 ==> name[0] != '0'
            &&& numeral_value(name.take(k)) == n
            &&& forall|i: int| 0 <= i < k ==> '0' <= #[trigger] name[i] <= '9'
            &&& name.skip(k) == seq!['.', 's', 's', 't']
        }),
{
    let name = table_file_name_spec(n);
    let d = numeral6(n as nat);
    let k = name.len() - 4;
    lemma_value_of_padded(n as nat);
    lemma_digits(n as nat);
    assert(name.take(k) =~= d);
    assert(name.skip(k) =~= seq!['.', 's', 's', 't']);
}

proof fn lemma_digits(n: nat)
    ensures
        forall|i: int| 0 <= i < numeral(n).len() ==> '0' <= #[trigger] numeral(n)[i] <= '9',
        n > 0 ==> numeral(n)[0] != '0',
        n < 10 ==> numeral(n).len() == 1,
        numeral(n).len() >= 1,
    decreases n,
{
    if n >= 10 {
        lemma_digits(n / 10);
    }
}

} // verus!
