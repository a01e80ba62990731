//! Field sets as text, for people to read.
use crate::field_set::{FieldSet, FI_INDEX, MAX_INDEX};
use vstd::prelude::*;
use vstd::string::StringExecFns;

verus! {

/// The decimal digit `d` as a character.
pub open spec fn digit_char(d: nat) -> char {
    if d == 0 {
        '0'
    } else if d == 1 {
        '1'
    } else if d == 2 {
        '2'
    } else if d == 3 {
        '3'
    } else if d == 4 {
        '4'
    } else if d == 5 {
        '5'
    } else if d == 6 {
        '6'
    } else if d == 7 {
        '7'
    } else if d == 8 {
        '8'
    } else {
        '9'
    }
}

/// `n` in decimal.
pub open spec fn decimal(n: nat) -> Seq<char>
    decreases n,
{
    if n < 10 {
        seq![digit_char(n)]
    } else {
        decimal(n / 10).push(digit_char(n % 10))
    }
}

/// The fields of `members` below `bound` in decimal, in ascending order.
pub open spec fn field_labels(members: Set<nat>, bound: nat) -> Seq<Seq<char>>
    decreases bound,
{
    if bound == 0 {
        Seq::empty()
    } else {
        let below = field_labels(members, (bound - 1) as nat);
        if members.contains((bound - 1) as nat) {
            below.push(decimal((bound - 1) as nat))
        } else {
            below
        }
    }
}

/// The labels of all members: the fields, and last the one of `FI`.
pub open spec fn labels(members: Set<nat>) -> Seq<Seq<char>> {
    let fields = field_labels(members, (MAX_INDEX + 1) as nat);
    if members.contains(FI_INDEX as nat) {
        fields.push(seq!['F', 'I', '[', '.', '.', ']'])
    } else {
        fields
    }
}

/// The labels in double quotes, with a comma and a space between two of them.
pub open spec fn comma_separated(labels: Seq<Seq<char>>) -> Seq<char>
    decreases labels.len(),
{
    if labels.len() == 0 {
        Seq::empty()
    } else {
        let before = comma_separated(labels.drop_last());
        let separated = if labels.len() == 1 {
            before
        } else {
            before + seq![',', ' ']
        };
        separated + seq!['"'] + labels.last() + seq!['"']
    }
}

/// A set as text: `<ALL>`, or its labels in brackets.
pub open spec fn set_text(members: Set<nat>) -> Seq<char> {
    if members == crate::field_set::all_members() {
        seq!['<', 'A', 'L', 'L', '>']
    } else {
        seq!['['] + comma_separated(labels(members)) + seq![']']
    }
}

/// Appends a decimal digit.
fn append_digit(out: &mut String, d: usize)
    requires
        d < 10,
    ensures
        final(out)@ == old(out)@.push(digit_char(d as nat)),
{
    proof {
        reveal_strlit("0");
        reveal_strlit("1");
        reveal_strlit("2");
        reveal_strlit("3");
        reveal_strlit("4");
        reveal_strlit("5");
        reveal_strlit("6");
        reveal_strlit("7");
        reveal_strlit("8");
        reveal_strlit("9");
    }
    let ghost before = out@;
    let digit = match d {
        0 => "0",
        1 => "1",
        2 => "2",
        3 => "3",
        4 => "4",
        5 => "5",
        6 => "6",
        7 => "7",
        8 => "8",
        _ => "9",
    };
    out.append(digit);
    proof {
        assert(out@ =~= before.push(digit_char(d as nat)));
    }
}

/// Appends `n` in decimal.
fn append_decimal(out: &mut String, n: usize)
    ensures
        final(out)@ == old(out)@ + decimal(n as nat),
    decreases n,
{
    let ghost before = out@;
    if n >= 10 {
        append_decimal(out, n / 10);
    }
    append_digit(out, n % 10);
    proof {
        assert(out@ =~= before + decimal(n as nat));
    }
}

/// Opens the next item of a list whose text so far is `out`: the separator, where it is not
/// the first, and a double quote.
fn open_item(out: &mut String, first: bool)
    ensures
        final(out)@ == old(out)@ + (if first {
            Seq::<char>::empty()
        } else {
            seq![',', ' ']
        }) + seq!['"'],
{
    proof {
        reveal_strlit(", ");
        reveal_strlit("\"");
    }
    let ghost before = out@;
    if !first {
        out.append(", ");
        proof {
            assert(out@ =~= before + seq![',', ' ']);
        }
    }
    let ghost separated = out@;
    out.append("\"");
    proof {
        assert(out@ =~= separated + seq!['"']);
        if first {
            assert(before + Seq::<char>::empty() =~= before);
        }
    }
}

impl FieldSet {
    /// The set as text: `<ALL>`, or a bracketed list of its quoted fields in ascending order,
    /// with `FI[..]` last where the set waits for the fields that `FI` names.
    pub fn debug_text(&self) -> (r: String)
        ensures
            r@ == set_text(self@),
    {
        let all = FieldSet::all();
        let mut out = String::new();
        proof {
            self.lemma_members(all);
            reveal_strlit("<ALL>");
            reveal_strlit("[");
            reveal_strlit("]");
            reveal_strlit("FI[..]");
            reveal_strlit("\"");
        }
        if *self == all {
            out.append("<ALL>");
            proof {
                assert(out@ =~= set_text(self@));
            }
            return out;
        }
        out.append("[");
        let mut first: bool = true;
        let mut i: usize = 0;
        while i <= MAX_INDEX
            invariant
                i <= MAX_INDEX + 1,
                first == (field_labels(self@, i as nat).len() == 0),
                out@ == seq!['['] + comma_separated(field_labels(self@, i as nat)),
                self@ != crate::field_set::all_members(),
                "\""@ == seq!['"'],
            decreases MAX_INDEX + 1 - i,
        {
            if self.get(i) {
                let ghost before = field_labels(self@, i as nat);
                open_item(&mut out, first);
                append_decimal(&mut out, i);
                out.append("\"");
                first = false;
                proof {
                    let after = field_labels(self@, (i + 1) as nat);
                    assert(after.drop_last() =~= before);
                    assert(out@ =~= seq!['['] + comma_separated(after));
                }
            }
            i = i + 1;
        }
        if self.has_fi() {
            let ghost before = field_labels(self@, (MAX_INDEX + 1) as nat);
            open_item(&mut out, first);
            out.append("FI[..]");
            out.append("\"");
            proof {
                let after = labels(self@);
                assert(after.drop_last() =~= before);
                assert("FI[..]"@ =~= seq!['F', 'I', '[', '.', '.', ']']);
                assert(out@ =~= seq!['['] + comma_separated(after));
            }
        }
        out.append("]");
        proof {
            assert("]"@ =~= seq![']']);
        }
        out
    }
}

} // verus!
