//! The listing of an index as text: one line for each term, the term, a colon
//! and the numbers of its documents, separated by commas.

use vstd::prelude::*;
use vstd::string::StringExecFns;
use crate::inverted_list::DocId;
use crate::model::listing_view;
use crate::Term;

verus! {

/// The character of a decimal digit.
pub open spec fn digit(d: nat) -> char {
    if d == 0 {
        '0'
    } else if d == 1 {
        '1'
    } else if d == 2 {
        '2'
    } else if d == 3 {
        '3'
    } else if d == 4 {
        '4'
    } else if d == 5 {
        '5'
    } else if d == 6 {
        '6'
    } else if d == 7 {
        '7'
    } else if d == 8 {
        '8'
    } else {
        '9'
    }
}

/// A number in decimal digits, without leading zeros.
pub open spec fn decimal(n: nat) -> Seq<char>
    decreases n,
{
    if n < 10 {
        seq![digit(n)]
    } else {
        decimal(n / 10).push(digit(n % 10))
    }
}

/// Numbers in decimal, each but the first after a comma and a space.
pub open spec fn joined(numbers: Seq<usize>) -> Seq<char>
    decreases numbers.len(),
{
    if numbers.len() == 0 {
        Seq::empty()
    } else if numbers.len() == 1 {
        decimal(numbers[0] as nat)
    } else {
        joined(numbers.drop_last()) + seq![',', ' '] + decimal(numbers.last() as nat)
    }
}

/// The line of one term: the term, a colon and a space, its numbers, a line feed.
pub open spec fn line(term: Seq<char>, numbers: Seq<usize>) -> Seq<char> {
    term + seq![':', ' '] + joined(numbers) + seq!['\n']
}

/// The lines of the rows, one after the other.
pub open spec fn rendered(rows: Seq<(Seq<char>, Seq<usize>)>) -> Seq<char>
    decreases rows.len(),
{
    if rows.len() == 0 {
        Seq::empty()
    } else {
        rendered(rows.drop_last()) + line(rows.last().0, rows.last().1)
    }
}

/// The text of one decimal digit.
fn digit_text(d: usize) -> (r: &'static str)
    requires
        d < 10,
    ensures
        r@ == seq![digit(d as nat)],
{
    proof {
        reveal_strlit("0");
        reveal_strlit("1");
        reveal_strlit("2");
        reveal_strlit("3");
        reveal_strlit("4");
        reveal_strlit("5");
        reveal_strlit("6");
        reveal_strlit("7");
        reveal_strlit("8");
        reveal_strlit("9");
    }
    let r = if d == 0 {
        "0"
    } else if d == 1 {
        "1"
    } else if d == 2 {
        "2"
    } else if d == 3 {
        "3"
    } else if d == 4 {
        "4"
    } else if d == 5 {
        "5"
    } else if d == 6 {
        "6"
    } else if d == 7 {
        "7"
    } else if d == 8 {
        "8"
    } else {
        "9"
    };
    assert(r@ =~= seq![digit(d as nat)]);
    r
}

/// Appends a number in decimal.
pub fn push_decimal(out: &mut String, n: usize)
    ensures
        final(out)@ == old(out)@ + decimal(n as nat),
    decreases n,
{
    if n >= 10 {
        push_decimal(out, n / 10);
    }
    out.append(digit_text(n % 10));
    assert(out@ =~= old(out)@ + decimal(n as nat));
}

/// Appends numbers in decimal, each but the first after a comma and a space.
pub fn push_joined(out: &mut String, numbers: &Vec<DocId>)
    ensures
        final(out)@ == old(out)@ + joined(numbers@),
{
    let mut j: usize = 0;
    while j < numbers.len()
        invariant
            j <= numbers.len(),
            out@ == old(out)@ + joined(numbers@.take(j as int)),
        decreases numbers.len() - j,
    {
        let ghost before = out@;
        let ghost done = numbers@.take(j as int);
        let ghost next = numbers@.take(j + 1);
        assert(next.drop_last() =~= done);
        assert(next.last() == numbers@[j as int]);
        if j > 0 {
            proof {
                reveal_strlit(", ");
            }
            out.append(", ");
            assert(out@ =~= before + seq![',', ' ']);
        }
        push_decimal(out, numbers[j]);
        assert(out@ =~= old(out)@ + joined(next));
        j = j + 1;
    }
    assert(numbers@.take(j as int) =~= numbers@);
}

/// Writes a listing as text, a line for each row.
pub fn render(rows: &Vec<(Term, Vec<DocId>)>) -> (r: String)
    ensures
        r@ == rendered(listing_view(rows@)),
{
    let ghost view = listing_view(rows@);
    let mut out = String::new();
    let mut i: usize = 0;
    while i < rows.len()
        invariant
            i <= rows.len(),
            view == listing_view(rows@),
            out@ == rendered(view.take(i as int)),
        decreases rows.len() - i,
    {
        let ghost before = out@;
        let ghost next = view.take(i + 1);
        assert(next.drop_last() =~= view.take(i as int));
        assert(next.last() == view[i as int]);
        proof {
            reveal_strlit(": ");
            reveal_strlit("\n");
        }
        out.append(rows[i].0.as_str());
        out.append(": ");
        push_joined(&mut out, &rows[i].1);
        out.append("\n");
        assert(": "@ =~= seq![':', ' ']);
        assert("\n"@ =~= seq!['\n']);
        assert(out@ =~= before + line(view[i as int].0, view[i as int].1));
        i = i + 1;
    }
    assert(view.take(i as int) =~= view);
    out
}

} // verus!
