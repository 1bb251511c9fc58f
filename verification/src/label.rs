use vstd::prelude::*;

verus! {

/// The capital letter with index `d` in the Latin alphabet (`0` is `'A'`).
pub open spec fn letter(d: nat) -> char {
    (65 + d) as char
}

/// The spreadsheet name of column `c` (0-based): `A`..`Z`, then `AA`..`AZ`,
/// `BA`.. and so on (bijective base 26).
pub open spec fn col_label_spec(c: nat) -> Seq<char>
    decreases c,
{
    if c < 26 {
        seq![letter(c)]
    } else {
        col_label_spec((c / 26 - 1) as nat).push(letter(c % 26))
    }
}

/// Puts `ch` in front of the text of `s`.
///
/// Calls `String::insert` at byte position 0, which is always a character
/// boundary, so the call never panics; the contract claims that the result
/// is `ch` followed by the old text.
#[verifier::external_body]
fn prepend_char(s: &mut String, ch: char)
    ensures
        final(s)@ == seq![ch] + old(s)@,
{
    s.insert(0, ch);
}

/// The header label of column `c`.
pub fn col_label(c: u32) -> (s: String)
    ensures
        s@ == col_label_spec(c as nat),
{
    let mut c = c;
    let mut s = String::new();
    let ghost c0 = c;
    loop
        invariant_except_break
            col_label_spec(c0 as nat) == col_label_spec(c as nat) + s@,
        ensures
            s@ == col_label_spec(c0 as nat),
        decreases c,
    {
        let d: u8 = (c % 26) as u8;
        let ch = (65u8 + d) as char;
        assert(ch == letter((c % 26) as nat));
        let ghost before = s@;
        prepend_char(&mut s, ch);
        if c < 26 {
            assert(s@ =~= col_label_spec(c as nat) + before);
            break;
        }
        assert(col_label_spec(c as nat) + before =~= col_label_spec((c / 26 - 1) as nat) + s@);
        c = c / 26 - 1;
    }
    s
}

/// The decimal digit with value `d`.
pub open spec fn digit(d: nat) -> char {
    (48 + d) as char
}

/// The decimal numeral of `n`, without leading zeros.
pub open spec fn decimal(n: nat) -> Seq<char>
    decreases n,
{
    if n < 10 {
        seq![digit(n)]
    } else {
        decimal(n / 10).push(digit(n % 10))
    }
}

/// The header label of row `r`: its 1-based number in decimal.
pub fn row_label(r: u32) -> (s: String)
    requires
        r < u32::MAX,
    ensures
        s@ == decimal(r as nat + 1),
{
    let mut n = r + 1;
    let mut s = String::new();
    let ghost n0 = n;
    loop
        invariant_except_break
            decimal(n0 as nat) == decimal(n as nat) + s@,
        ensures
            s@ == decimal(n0 as nat),
        decreases n,
    {
        let d: u8 = (n % 10) as u8;
        let ch = (48u8 + d) as char;
        assert(ch == digit((n % 10) as nat));
        let ghost before = s@;
        prepend_char(&mut s, ch);
        if n < 10 {
            assert(s@ =~= decimal(n as nat) + before);
            break;
        }
        assert(decimal(n as nat) + before =~= decimal((n / 10) as nat) + s@);
        n = n / 10;
    }
    s
}

} // verus!
