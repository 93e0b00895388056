//! Window labels: `"{open sequence number}-{window id}"`, unique per number.
use vstd::prelude::*;

verus! {

/// The character of a decimal digit.
pub open spec fn digit_char(d: nat) -> char {
    if d == 0 { '0' }
    else if d == 1 { '1' }
    else if d == 2 { '2' }
    else if d == 3 { '3' }
    else if d == 4 { '4' }
    else if d == 5 { '5' }
    else if d == 6 { '6' }
    else if d == 7 { '7' }
    else if d == 8 { '8' }
    else { '9' }
}

/// The decimal notation of a number, without leading zeros.
pub open spec fn decimal(n: nat) -> Seq<char>
    decreases n,
{
    if n < 10 {
        seq![digit_char(n)]
    } else {
        decimal(n / 10).push(digit_char(n % 10))
    }
}

/// The label of the window opened as number `n` from definition `window_id`.
pub open spec fn label_of(n: nat, window_id: Seq<char>) -> Seq<char> {
    decimal(n) + seq!['-'] + window_id
}

proof fn lemma_decimal_shape(n: nat)
    ensures
        decimal(n).len() >= 1,
        n >= 10 ==> decimal(n).len() >= 2,
        forall|i: int| 0 <= i < decimal(n).len() ==> decimal(n)[i] != '-',
    decreases n,
{
    if n >= 10 {
        lemma_decimal_shape(n / 10);
    }
}

proof fn lemma_decimal_injective(a: nat, b: nat)
    requires
        decimal(a) == decimal(b),
    ensures
        a == b,
    decreases a,
{
    lemma_decimal_shape(a);
    lemma_decimal_shape(b);
    if a >= 10 && b >= 10 {
        assert(decimal(a).drop_last() == decimal(a / 10));
        assert(decimal(b).drop_last() == decimal(b / 10));
        lemma_decimal_injective(a / 10, b / 10);
        assert(decimal(a).last() == digit_char(a % 10));
        assert(decimal(b).last() == digit_char(b % 10));
        assert(a % 10 == b % 10);
        assert(a == 10 * (a / 10) + a % 10);
        assert(b == 10 * (b / 10) + b % 10);
    } else if a < 10 && b < 10 {
        assert(decimal(a)[0] == digit_char(a));
        assert(decimal(b)[0] == digit_char(b));
    } else {
        assert(decimal(a).len() != decimal(b).len());
    }
}

/// Labels of different open sequence numbers differ, whatever the window
/// definitions they were opened from.
pub proof fn lemma_labels_distinct(a: nat, id_a: Seq<char>, b: nat, id_b: Seq<char>)
    requires
        a != b,
    ensures
        label_of(a, id_a) != label_of(b, id_b),
{
    lemma_decimal_shape(a);
    lemma_decimal_shape(b);
    let la = label_of(a, id_a);
    let lb = label_of(b, id_b);
    let da = decimal(a);
    let db = decimal(b);
    if la == lb {
        if da.len() < db.len() {
            assert(la[da.len() as int] == '-');
            assert(lb[da.len() as int] == db[da.len() as int]);
        } else if db.len() < da.len() {
            assert(lb[db.len() as int] == '-');
            assert(la[db.len() as int] == da[db.len() as int]);
        } else {
            assert(da =~= la.subrange(0, da.len() as int));
            assert(db =~= lb.subrange(0, db.len() as int));
            lemma_decimal_injective(a, b);
        }
    }
}

fn digit_str(d: u32) -> (r: &'static str)
    requires
        d < 10,
    ensures
        r@ == seq![digit_char(d as nat)],
{
    proof {
        reveal_strlit("0");
        reveal_strlit("1");
        reveal_strlit("2");
        reveal_strlit("3");
        reveal_strlit("4");
        reveal_strlit("5");
        reveal_strlit("6");
        reveal_strlit("7");
        reveal_strlit("8");
        reveal_strlit("9");
    }
    if d == 0 { "0" }
    else if d == 1 { "1" }
    else if d == 2 { "2" }
    else if d == 3 { "3" }
    else if d == 4 { "4" }
    else if d == 5 { "5" }
    else if d == 6 { "6" }
    else if d == 7 { "7" }
    else if d == 8 { "8" }
    else { "9" }
}

/// The decimal notation of `n`.
pub fn decimal_string(n: u32) -> (r: String)
    ensures
        r@ == decimal(n as nat),
    decreases n,
{
    if n < 10 {
        String::from_str(digit_str(n))
    } else {
        let mut s = decimal_string(n / 10);
        s.append(digit_str(n % 10));
        s
    }
}

/// The label of the window opened as number `window_count` from the
/// definition `window_id`.
pub fn window_label(window_count: u32, window_id: &str) -> (r: String)
    ensures
        r@ == label_of(window_count as nat, window_id@),
{
    let mut s = decimal_string(window_count);
    proof {
        reveal_strlit("-");
    }
    s.append("-");
    s.append(window_id);
    s
}

} // verus!
