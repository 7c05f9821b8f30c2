//! Key schema: the attribute names of the store's two key columns and the
//! mapping from a turn number to its partition-key value.

use vstd::prelude::*;
use vstd::string::*;

verus! {

/// Name of the partition-key attribute in the store schema.
pub fn partition_key_attribute() -> (s: &'static str)
    ensures
        s@ == "pk"@,
{
    "pk"
}

/// Name of the sort-key attribute in the store schema.
pub fn sort_key_attribute() -> (s: &'static str)
    ensures
        s@ == "sk"@,
{
    "sk"
}

/// The character for one decimal digit.
pub open spec fn decimal_digit(d: int) -> char
    recommends
        0 <= d < 10,
{
    if d == 0 {
        '0'
    } else if d == 1 {
        '1'
    } else if d == 2 {
        '2'
    } else if d == 3 {
        '3'
    } else if d == 4 {
        '4'
    } else if d == 5 {
        '5'
    } else if d == 6 {
        '6'
    } else if d == 7 {
        '7'
    } else if d == 8 {
        '8'
    } else {
        '9'
    }
}

/// The decimal rendering of a non-negative integer, most significant
/// digit first and without leading zeros (`0` renders as `"0"`).
pub open spec fn decimal_text(n: int) -> Seq<char>
    recommends
        n >= 0,
    decreases n,
{
    if n < 10 {
        seq![decimal_digit(n)]
    } else {
        decimal_text(n / 10).push(decimal_digit(n % 10))
    }
}

/// The partition-key value for one turn: `matchmaking#turn_<N>`.
pub open spec fn pkey_text(turn_number: u32) -> Seq<char> {
    "matchmaking#turn_"@ + decimal_text(turn_number as int)
}

fn digit_char(d: u32) -> (c: char)
    requires
        d < 10,
    ensures
        c == decimal_digit(d as int),
{
    if d == 0 {
        '0'
    } else if d == 1 {
        '1'
    } else if d == 2 {
        '2'
    } else if d == 3 {
        '3'
    } else if d == 4 {
        '4'
    } else if d == 5 {
        '5'
    } else if d == 6 {
        '6'
    } else if d == 7 {
        '7'
    } else if d == 8 {
        '8'
    } else {
        '9'
    }
}

/// Relies on std's `String::push`: appends one character to the string.
pub assume_specification[ String::push ](s: &mut String, ch: char)
    ensures
        final(s)@ == old(s)@.push(ch),
;

fn push_decimal(n: u32, out: &mut String)
    ensures
        final(out)@ == old(out)@ + decimal_text(n as int),
    decreases n,
{
    if n >= 10 {
        push_decimal(n / 10, out);
    }
    let d = digit_char(n % 10);
    out.push(d);
    proof {
        if n < 10 {
            assert(old(out)@ + decimal_text(n as int) =~= old(out)@.push(decimal_digit(n as int)));
        } else {
            assert(old(out)@ + decimal_text(n as int) =~= (old(out)@ + decimal_text(
                n as int / 10,
            )).push(decimal_digit(n as int % 10)));
        }
    }
}

/// The partition-key value of one turn. Two calls with the same turn
/// number return the same string; `lemma_pkey_text_injective` shows that
/// different turn numbers give different strings.
pub fn matchmaking_pkey(turn_number: u32) -> (s: String)
    ensures
        s@ == pkey_text(turn_number),
{
    let mut s = String::from_str("matchmaking#turn_");
    push_decimal(turn_number, &mut s);
    s
}

proof fn lemma_decimal_text_len(n: int)
    requires
        n >= 0,
    ensures
        decimal_text(n).len() >= 1,
    decreases n,
{
    if n >= 10 {
        lemma_decimal_text_len(n / 10);
    }
}

proof fn lemma_decimal_digit_injective(x: int, y: int)
    requires
        0 <= x < 10,
        0 <= y < 10,
        decimal_digit(x) == decimal_digit(y),
    ensures
        x == y,
{
}

proof fn lemma_decimal_text_injective(a: int, b: int)
    requires
        a >= 0,
        b >= 0,
        decimal_text(a) == decimal_text(b),
    ensures
        a == b,
    decreases a,
{
    lemma_decimal_text_len(a);
    lemma_decimal_text_len(b);
    if a < 10 && b < 10 {
        assert(decimal_text(a)[0] == decimal_digit(a));
        assert(decimal_text(b)[0] == decimal_digit(b));
        lemma_decimal_digit_injective(a, b);
    } else if a >= 10 && b >= 10 {
        assert(decimal_text(a).last() == decimal_digit(a % 10));
        assert(decimal_text(b).last() == decimal_digit(b % 10));
        lemma_decimal_digit_injective(a % 10, b % 10);
        assert(decimal_text(a).drop_last() =~= decimal_text(a / 10));
        assert(decimal_text(b).drop_last() =~= decimal_text(b / 10));
        lemma_decimal_text_injective(a / 10, b / 10);
    } else if a < 10 {
        lemma_decimal_text_len(b / 10);
        assert(decimal_text(b).len() >= 2);
        assert(false);
    } else {
        lemma_decimal_text_len(a / 10);
        assert(decimal_text(a).len() >= 2);
        assert(false);
    }
}

/// The partition key determines the turn: distinct turn numbers map to
/// distinct partition-key values.
pub proof fn lemma_pkey_text_injective(a: u32, b: u32)
    requires
        pkey_text(a) == pkey_text(b),
    ensures
        a == b,
{
    let p = "matchmaking#turn_"@;
    let da = decimal_text(a as int);
    let db = decimal_text(b as int);
    assert((p + da).len() == (p + db).len());
    assert(da.len() == db.len());
    assert forall|i: int| 0 <= i < da.len() implies da[i] == db[i] by {
        assert((p + da)[p.len() + i] == da[i]);
        assert((p + db)[p.len() + i] == db[i]);
    }
    assert(da =~= db);
    lemma_decimal_text_injective(a as int, b as int);
}

} // verus!
