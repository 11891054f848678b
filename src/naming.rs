//! Names of segment files: `data_<N>` in the store's directory, with `N` the
//! segment's identifier in decimal.

use vstd::prelude::*;

verus! {

pub open spec fn is_digit(c: char) -> bool {
    '0' <= c <= '9'
}

/// The number that a text of decimal digits writes.
pub open spec fn digits_value(s: Seq<char>) -> nat
    decreases s.len(),
{
    if s.len() == 0 {
        0
    } else {
        (digits_value(s.drop_last()) * 10 + (s.last() as int - '0' as int)) as nat
    }
}

/// The decimal digits of a number, without leading zeros.
pub open spec fn decimal(n: nat) -> Seq<char>
    decreases n,
{
    if n < 10 {
        seq![(n + '0' as nat) as char]
    } else {
        decimal(n / 10).push(((n % 10) + '0' as nat) as char)
    }
}

pub open spec fn name_prefix() -> Seq<char> {
    "data_"@
}

/// The file name of the segment with identifier `id`.
pub open spec fn segment_name(id: nat) -> Seq<char> {
    name_prefix() + decimal(id)
}

/// A segment file name: `data_` and one or more decimal digits whose number
/// fits a `usize`.
pub open spec fn is_segment_name(name: Seq<char>) -> bool {
    &&& name.len() > name_prefix().len()
    &&& name.take(name_prefix().len() as int) == name_prefix()
    &&& forall|i: int| name_prefix().len() <= i < name.len() ==> is_digit(#[trigger] name[i])
    &&& digits_value(name.skip(name_prefix().len() as int)) <= usize::MAX
}

/// The identifier a segment file name carries.
pub open spec fn name_id(name: Seq<char>) -> nat {
    digits_value(name.skip(name_prefix().len() as int))
}

/// A file name joined to a directory, with one separator between them.
pub open spec fn join_path(dir: Seq<char>, name: Seq<char>) -> Seq<char> {
    if dir.len() == 0 {
        name
    } else if dir.last() == '/' {
        dir + name
    } else {
        dir + "/"@ + name
    }
}

/// The text of one decimal digit.
fn digit_text(d: usize) -> (r: &'static str)
    requires
        d < 10,
    ensures
        r@ == seq![(d + '0' as nat) as char],
{
    let digits = "0123456789";
    proof {
        reveal_strlit("0123456789");
        assert(digits.is_ascii());
    }
    let r = digits.substring_ascii(d, d + 1);
    proof {
        assert(r@ =~= seq![(d + '0' as nat) as char]);
    }
    r
}

/// Appends the decimal digits of `n` to `text`.
fn push_decimal(text: &mut String, n: usize)
    ensures
        final(text)@ == old(text)@ + decimal(n as nat),
    decreases n,
{
    if n >= 10 {
        push_decimal(text, n / 10);
    }
    let ghost before = text@;
    text.append(digit_text(n % 10));
    proof {
        assert(text@ =~= before + seq![((n % 10) + '0' as nat) as char]);
    }
}

proof fn lemma_digits_grow(s: Seq<char>, i: int, j: int)
    requires
        0 <= i <= j <= s.len(),
        forall|k: int| 0 <= k < s.len() ==> is_digit(#[trigger] s[k]),
    ensures
        digits_value(s.take(i)) <= digits_value(s.take(j)),
    decreases j,
{
    if i < j {
        lemma_digits_grow(s, i, j - 1);
        assert(s.take(j).drop_last() =~= s.take(j - 1));
    }
}

/// The identifier in a segment file name, or `None` for any other name.
pub fn parse_file_id(name: &str) -> (r: Option<usize>)
    ensures
        match r {
            Some(id) => is_segment_name(name@) && id as nat == name_id(name@),
            None => !is_segment_name(name@),
        },
{
    proof {
        reveal_strlit("data_");
    }
    let len = name.unicode_len();
    if len <= 5 {
        return None;
    }
    if name.get_char(0) != 'd' || name.get_char(1) != 'a' || name.get_char(2) != 't'
        || name.get_char(3) != 'a' || name.get_char(4) != '_' {
        proof {
            if name@.take(5) == name_prefix() {
                assert(name@[0] == name@.take(5)[0]);
                assert(name@[1] == name@.take(5)[1]);
                assert(name@[2] == name@.take(5)[2]);
                assert(name@[3] == name@.take(5)[3]);
                assert(name@[4] == name@.take(5)[4]);
            }
        }
        return None;
    }
    proof {
        assert(name@.take(5) =~= name_prefix());
    }
    let ghost digits = name@.skip(5);
    let mut value: usize = 0;
    let mut i: usize = 5;
    while i < len
        invariant
            name_prefix().len() == 5,
            len == name@.len(),
            5 <= i <= len,
            digits == name@.skip(5),
            forall|k: int| 5 <= k < i ==> is_digit(#[trigger] name@[k]),
            value as nat == digits_value(digits.take(i - 5)),
        decreases len - i,
    {
        let c = name.get_char(i);
        if c < '0' || c > '9' {
            proof {
                assert(!is_digit(name@[i as int]));
            }
            return None;
        }
        let d = (c as u32 - '0' as u32) as usize;
        proof {
            assert(digits.take(i - 4).drop_last() =~= digits.take(i - 5));
            assert(digits.take(i - 4).last() == c);
        }
        if value > (usize::MAX - d) / 10 {
            proof {
                assert(digits_value(digits.take(i - 4)) > usize::MAX) by (nonlinear_arith)
                    requires
                        digits_value(digits.take(i - 4)) == value * 10 + d,
                        value > (usize::MAX - d) / 10,
                        d <= 9,
                ;
                if is_segment_name(name@) {
                    assert forall|k: int| 0 <= k < digits.len() implies is_digit(
                        #[trigger] digits[k],
                    ) by {
                        assert(digits[k] == name@[k + 5]);
                        assert(is_digit(name@[k + 5]));
                    }
                    lemma_digits_grow(digits, i - 4, digits.len() as int);
                    assert(digits.take(digits.len() as int) =~= digits);
                }
            }
            return None;
        }
        value = value * 10 + d;
        i += 1;
    }
    proof {
        assert(digits.take(len - 5) =~= digits);
    }
    Some(value)
}

/// The identifier in a segment file name.
pub fn check_and_get_file_id(f_name: String) -> (r: usize)
    requires
        is_segment_name(f_name@),
    ensures
        r as nat == name_id(f_name@),
{
    match parse_file_id(f_name.as_str()) {
        Some(id) => id,
        None => 0,
    }
}

/// The file name of the segment with identifier `id`.
pub fn file_name(id: usize) -> (r: String)
    ensures
        r@ == segment_name(id as nat),
{
    let mut name = "data_".to_owned();
    push_decimal(&mut name, id);
    name
}

/// The path of `name` in the directory `dir`.
pub fn path_in(dir: &str, name: &str) -> (r: String)
    ensures
        r@ == join_path(dir@, name@),
{
    let n = dir.unicode_len();
    let mut path = dir.to_owned();
    if n == 0 {
        return name.to_owned();
    }
    if dir.get_char(n - 1) != '/' {
        path.append("/");
    }
    path.append(name);
    path
}

/// The path of the copy that compaction writes beside a segment file.
pub fn compact_path(path: &str) -> (r: String)
    ensures
        r@ == path@ + ".compact"@,
{
    let mut p = path.to_owned();
    p.append(".compact");
    p
}

} // verus!
