//! Small verified helpers on strings and lists of strings.

use vstd::prelude::*;
use vstd::string::StringExecFns;

verus! {

/// The views of the strings of `v`, in order.
pub open spec fn views(v: Seq<String>) -> Seq<Seq<char>> {
    Seq::new(v.len(), |i: int| v[i]@)
}

/// Pushing a string pushes its view.
pub proof fn lemma_views_push(v: Seq<String>, s: String)
    ensures
        views(v.push(s)) == views(v).push(s@),
{
    assert(views(v.push(s)) =~= views(v).push(s@));
}

/// Whether some string of `v` reads `name`.
pub fn contains_name(v: &Vec<String>, name: &String) -> (found: bool)
    ensures
        found == views(v@).contains(name@),
{
    let mut i: usize = 0;
    while i < v.len()
        invariant
            i <= v.len(),
            forall|j: int| 0 <= j < i ==> views(v@)[j] != name@,
        decreases v.len() - i,
    {
        if v[i] == *name {
            assert(views(v@)[i as int] == name@);
            return true;
        }
        i += 1;
    }
    false
}

/// The length of the longest of `names`, 0 when there is none.
pub open spec fn longest(names: Seq<Seq<char>>) -> nat
    decreases names.len(),
{
    if names.len() == 0 {
        0
    } else {
        let rest = longest(names.drop_last());
        if names.last().len() > rest {
            names.last().len()
        } else {
            rest
        }
    }
}

/// No name is longer than the longest.
pub proof fn lemma_longest_bounds(names: Seq<Seq<char>>, i: int)
    requires
        0 <= i < names.len(),
    ensures
        names[i].len() <= longest(names),
    decreases names.len(),
{
    if i < names.len() - 1 {
        lemma_longest_bounds(names.drop_last(), i);
    }
}

/// The mark that tells a name apart from one already taken.
pub open spec fn prime() -> char {
    '\''
}

/// `wanted` itself where none of `used` reads so; otherwise `wanted` followed by as
/// few primes as it takes to differ from every one of `used`.
pub open spec fn unused_name(used: Seq<Seq<char>>, wanted: Seq<char>) -> Seq<char>
    decreases longest(used) + 1 - wanted.len(),
    via unused_name_terminates
{
    if used.contains(wanted) {
        unused_name(used, wanted.push(prime()))
    } else {
        wanted
    }
}

#[via_fn]
proof fn unused_name_terminates(used: Seq<Seq<char>>, wanted: Seq<char>) {
    if used.contains(wanted) {
        let i = choose|i: int| 0 <= i < used.len() && used[i] == wanted;
        lemma_longest_bounds(used, i);
    }
}

/// The name that `unused_name` picks is not among `used`.
pub proof fn lemma_unused_name_is_unused(used: Seq<Seq<char>>, wanted: Seq<char>)
    ensures
        !used.contains(unused_name(used, wanted)),
    decreases longest(used) + 1 - wanted.len(),
{
    if used.contains(wanted) {
        let i = choose|i: int| 0 <= i < used.len() && used[i] == wanted;
        lemma_longest_bounds(used, i);
        lemma_unused_name_is_unused(used, wanted.push(prime()));
    }
}

/// The name that `unused_name` picks begins with `wanted`.
pub proof fn lemma_unused_name_begins(used: Seq<Seq<char>>, wanted: Seq<char>)
    ensures
        wanted.is_prefix_of(unused_name(used, wanted)),
    decreases longest(used) + 1 - wanted.len(),
{
    if used.contains(wanted) {
        let i = choose|i: int| 0 <= i < used.len() && used[i] == wanted;
        lemma_longest_bounds(used, i);
        lemma_unused_name_begins(used, wanted.push(prime()));
        let longer = wanted.push(prime());
        let name = unused_name(used, wanted);
        assert(longer.is_prefix_of(name));
        assert(wanted =~= longer.subrange(0, wanted.len() as int));
        assert(wanted =~= name.subrange(0, wanted.len() as int));
    }
}

/// Turns `wanted` into a name that none of `used` has: `wanted` itself if it is
/// free, else `wanted` with primes appended.
pub fn fresh_name(used: &Vec<String>, wanted: String) -> (name: String)
    ensures
        name@ == unused_name(views(used@), wanted@),
        !views(used@).contains(name@),
{
    let mut name = wanted;
    while contains_name(used, &name)
        invariant
            unused_name(views(used@), name@) == unused_name(views(used@), wanted@),
        decreases longest(views(used@)) + 1 - name@.len(),
    {
        proof {
            let i = choose|i: int| 0 <= i < views(used@).len() && views(used@)[i] == name@;
            lemma_longest_bounds(views(used@), i);
            reveal_strlit("'");
            assert(name@ + "'"@ =~= name@.push(prime()));
        }
        name.append("'");
    }
    name
}

/// The character of one decimal digit.
pub open spec fn digit(d: nat) -> char {
    if d == 0 {
        '0'
    } else if d == 1 {
        '1'
    } else if d == 2 {
        '2'
    } else if d == 3 {
        '3'
    } else if d == 4 {
        '4'
    } else if d == 5 {
        '5'
    } else if d == 6 {
        '6'
    } else if d == 7 {
        '7'
    } else if d == 8 {
        '8'
    } else {
        '9'
    }
}

/// `n` written in decimal, without leading zeros.
pub open spec fn decimal(n: nat) -> Seq<char>
    decreases n,
{
    if n < 10 {
        seq![digit(n)]
    } else {
        decimal(n / 10).push(digit(n % 10))
    }
}

/// The text of one decimal digit.
fn digit_text(d: usize) -> (s: &'static str)
    requires
        d < 10,
    ensures
        s@ == seq![digit(d as nat)],
{
    proof {
        reveal_strlit("0");
        reveal_strlit("1");
        reveal_strlit("2");
        reveal_strlit("3");
        reveal_strlit("4");
        reveal_strlit("5");
        reveal_strlit("6");
        reveal_strlit("7");
        reveal_strlit("8");
        reveal_strlit("9");
    }
    let s = if d == 0 {
        "0"
    } else if d == 1 {
        "1"
    } else if d == 2 {
        "2"
    } else if d == 3 {
        "3"
    } else if d == 4 {
        "4"
    } else if d == 5 {
        "5"
    } else if d == 6 {
        "6"
    } else if d == 7 {
        "7"
    } else if d == 8 {
        "8"
    } else {
        "9"
    };
    assert(s@ =~= seq![digit(d as nat)]);
    s
}

/// Appends `n` in decimal to `s`.
pub fn push_decimal(s: &mut String, n: usize)
    ensures
        final(s)@ == old(s)@ + decimal(n as nat),
    decreases n,
{
    if n >= 10 {
        push_decimal(s, n / 10);
    }
    s.append(digit_text(n % 10));
    proof {
        if n >= 10 {
            assert(old(s)@ + decimal((n / 10) as nat) + seq![digit((n % 10) as nat)] =~= old(s)@
                + decimal(n as nat));
        }
    }
}

} // verus!
