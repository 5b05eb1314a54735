//! Names of the files of a time-series family.

use vstd::prelude::*;
use vstd::string::StringExecFns;

verus! {

/// The character of the decimal digit `d`.
pub open spec fn digit(d: int) -> char {
    if d == 0 {
        '0'
    } else if d == 1 {
        '1'
    } else if d == 2 {
        '2'
    } else if d == 3 {
        '3'
    } else if d == 4 {
        '4'
    } else if d == 5 {
        '5'
    } else if d == 6 {
        '6'
    } else if d == 7 {
        '7'
    } else if d == 8 {
        '8'
    } else {
        '9'
    }
}

/// `n` written in decimal, without leading zeros.
pub open spec fn decimal(n: nat) -> Seq<char>
    decreases n,
{
    if n < 10 {
        seq![digit(n as int)]
    } else {
        decimal(n / 10).push(digit((n % 10) as int))
    }
}

/// `n` written in decimal with zeros in front up to `width` characters;
/// a longer number is written out in full.
pub open spec fn zero_padded(n: nat, width: nat) -> Seq<char> {
    if decimal(n).len() >= width {
        decimal(n)
    } else {
        Seq::new((width - decimal(n).len()) as nat, |i: int| '0') + decimal(n)
    }
}

/// The name of file `file_id` of family `tf_id` under `dir`, with the
/// extension `ext`: `{dir}/{tf_id}/_{file_id:06}.{ext}`.
pub open spec fn file_name(dir: Seq<char>, tf_id: u32, file_id: u64, ext: Seq<char>) -> Seq<char> {
    dir + seq!['/'] + decimal(tf_id as nat) + seq!['/', '_'] + zero_padded(file_id as nat, 6)
        + seq!['.'] + ext
}

/// The digits of `digits` as characters, last digit first.
spec fn reversed(digits: Seq<u8>) -> Seq<char> {
    Seq::new(digits.len(), |i: int| digit(digits[digits.len() - 1 - i] as int))
}

fn digit_str(d: u8) -> (s: &'static str)
    requires
        d < 10,
    ensures
        s@ == seq![digit(d as int)],
{
    proof {
        reveal_strlit("0");
        reveal_strlit("1");
        reveal_strlit("2");
        reveal_strlit("3");
        reveal_strlit("4");
        reveal_strlit("5");
        reveal_strlit("6");
        reveal_strlit("7");
        reveal_strlit("8");
        reveal_strlit("9");
    }
    let s = if d == 0 {
        "0"
    } else if d == 1 {
        "1"
    } else if d == 2 {
        "2"
    } else if d == 3 {
        "3"
    } else if d == 4 {
        "4"
    } else if d == 5 {
        "5"
    } else if d == 6 {
        "6"
    } else if d == 7 {
        "7"
    } else if d == 8 {
        "8"
    } else {
        "9"
    };
    assert(s@ =~= seq![digit(d as int)]);
    s
}

/// Appends `n` in decimal to `s`, with zeros in front up to `width`
/// characters.
fn push_decimal(s: &mut String, n: u64, width: usize)
    ensures
        final(s)@ == old(s)@ + zero_padded(n as nat, width as nat),
{
    let mut digits: Vec<u8> = Vec::new();
    let mut m: u64 = n;
    assert(decimal(n as nat) =~= decimal(m as nat) + reversed(digits@));
    while m >= 10
        invariant
            decimal(n as nat) == decimal(m as nat) + reversed(digits@),
            forall|i: int| 0 <= i < digits.len() ==> digits[i] < 10,
        decreases m,
    {
        let ghost before = digits@;
        digits.push((m % 10) as u8);
        proof {
            assert(reversed(digits@) =~= seq![digit((m % 10) as int)] + reversed(before));
            assert(decimal(m as nat) == decimal((m / 10) as nat).push(digit((m % 10) as int)));
            assert(decimal((m / 10) as nat).push(digit((m % 10) as int)) + reversed(before)
                =~= decimal((m / 10) as nat) + (seq![digit((m % 10) as int)] + reversed(before)));
        }
        m = m / 10;
    }
    let ghost before = digits@;
    digits.push(m as u8);
    proof {
        assert(reversed(digits@) =~= seq![digit(m as int)] + reversed(before));
        assert(decimal(n as nat) == reversed(digits@));
    }
    let ghost start = s@;
    let mut k: usize = digits.len();
    while k < width
        invariant
            digits.len() <= k,
            k <= width || k == digits.len(),
            s@ == start + Seq::new((k - digits.len()) as nat, |i: int| '0'),
        decreases width - k,
    {
        proof {
            reveal_strlit("0");
        }
        let ghost zeros = Seq::new((k - digits.len()) as nat, |i: int| '0');
        s.append("0");
        assert(start + zeros + "0"@ =~= start + Seq::new((k + 1 - digits.len()) as nat, |i: int| '0'));
        k += 1;
    }
    let ghost padded = s@;
    let mut i: usize = 0;
    while i < digits.len()
        invariant
            i <= digits.len(),
            forall|j: int| 0 <= j < digits.len() ==> digits[j] < 10,
            s@ == padded + reversed(digits@).take(i as int),
        decreases digits.len() - i,
    {
        let d = digits[digits.len() - 1 - i];
        let ghost sofar = reversed(digits@).take(i as int);
        s.append(digit_str(d));
        assert(padded + sofar + seq![digit(d as int)] =~= padded + reversed(digits@).take(i + 1));
        i += 1;
    }
    proof {
        assert(reversed(digits@).take(digits.len() as int) =~= reversed(digits@));
        if decimal(n as nat).len() >= width {
            assert(padded =~= start);
        } else {
            assert(k == width);
        }
    }
}

/// The name `{dir}/{tf_id}/_{file_id:06}.{ext}`.
fn make_file_name(dir: &str, tf_id: u32, file_id: u64, ext: &str) -> (name: String)
    ensures
        name@ == file_name(dir@, tf_id, file_id, ext@),
{
    proof {
        reveal_strlit("/");
        reveal_strlit("/_");
        reveal_strlit(".");
    }
    let mut name = String::from_str(dir);
    name.append("/");
    push_decimal(&mut name, tf_id as u64, 0);
    name.append("/_");
    push_decimal(&mut name, file_id, 6);
    name.append(".");
    name.append(ext);
    proof {
        assert("/"@ =~= seq!['/']);
        assert("/_"@ =~= seq!['/', '_']);
        assert("."@ =~= seq!['.']);
    }
    name
}

/// The name of main file `file_id` of family `tf_id` under `dir`.
pub fn make_tsm_file_name(dir: &str, tf_id: u32, file_id: u64) -> (name: String)
    ensures
        name@ == file_name(dir@, tf_id, file_id, "tsm"@),
{
    make_file_name(dir, tf_id, file_id, "tsm")
}

/// The name of file `file_id` of late samples of family `tf_id` under
/// `dir`.
pub fn make_delta_file_name(dir: &str, tf_id: u32, file_id: u64) -> (name: String)
    ensures
        name@ == file_name(dir@, tf_id, file_id, "delta"@),
{
    make_file_name(dir, tf_id, file_id, "delta")
}

/// The name of the file that records what was deleted from file
/// `file_id` of family `tf_id` under `dir`.
pub fn make_tsm_tombstone_file_name(dir: &str, tf_id: u32, file_id: u64) -> (name: String)
    ensures
        name@ == file_name(dir@, tf_id, file_id, "tombstone"@),
{
    make_file_name(dir, tf_id, file_id, "tombstone")
}

} // verus!
