//! Log file names: `<gen>.log`, with `gen` in decimal.
use vstd::prelude::*;
use vstd::string::StrSliceExecFns;
use vstd::string::StringExecFns;
use vstd::utf8::encode_utf8;

verus! {

/// The bytes of the suffix `.log`.
pub open spec fn log_suffix() -> Seq<u8> {
    seq![46u8, 108u8, 111u8, 103u8]
}

/// An ASCII decimal digit.
pub open spec fn is_digit(b: u8) -> bool {
    48 <= b <= 57
}

/// The number that a run of ASCII digits spells, most significant first.
pub open spec fn digits_value(d: Seq<u8>) -> nat
    decreases d.len(),
{
    if d.len() == 0 {
        0
    } else {
        digits_value(d.drop_last()) * 10 + (d.last() - 48) as nat
    }
}

/// The generation that a file name gives: one or more ASCII digits, then
/// `.log`, the digits spelling a `u64`.
pub open spec fn gen_of_name(b: Seq<u8>) -> Option<u64> {
    let n = b.len() - 4;
    if b.len() > 4 && b.subrange(n, b.len() as int) == log_suffix() && (forall|i: int|
        0 <= i < n ==> is_digit(#[trigger] b[i])) && digits_value(b.subrange(0, n)) <= u64::MAX {
        Some(digits_value(b.subrange(0, n)) as u64)
    } else {
        None
    }
}

/// The decimal digits of `n`, most significant first, without leading zeros.
pub open spec fn decimal(n: nat) -> Seq<char>
    decreases n,
{
    if n < 10 {
        seq![(n + 48) as char]
    } else {
        decimal(n / 10) + seq![((n % 10) + 48) as char]
    }
}

/// The digit `d` as a one-character string.
fn digit_str(d: u64) -> (r: &'static str)
    requires
        d < 10,
    ensures
        r@ == seq![(d + 48) as char],
{
    proof {
        reveal_strlit("0");
        reveal_strlit("1");
        reveal_strlit("2");
        reveal_strlit("3");
        reveal_strlit("4");
        reveal_strlit("5");
        reveal_strlit("6");
        reveal_strlit("7");
        reveal_strlit("8");
        reveal_strlit("9");
    }
    match d {
        0 => "0",
        1 => "1",
        2 => "2",
        3 => "3",
        4 => "4",
        5 => "5",
        6 => "6",
        7 => "7",
        8 => "8",
        _ => "9",
    }
}

/// Appends the decimal digits of `n`.
fn push_decimal(s: &mut String, n: u64)
    ensures
        final(s)@ == old(s)@ + decimal(n as nat),
    decreases n,
{
    if n >= 10 {
        push_decimal(s, n / 10);
    }
    s.append(digit_str(n % 10));
    assert(final(s)@ =~= old(s)@ + decimal(n as nat));
}

proof fn lemma_digits_value_grows(d: Seq<u8>, j: int)
    requires
        0 <= j <= d.len(),
        forall|i: int| 0 <= i < d.len() ==> is_digit(#[trigger] d[i]),
    ensures
        digits_value(d.subrange(0, j)) <= digits_value(d),
    decreases d.len() - j,
{
    if j < d.len() {
        lemma_digits_value_grows(d, j + 1);
        assert(d.subrange(0, j + 1).drop_last() =~= d.subrange(0, j));
    } else {
        assert(d.subrange(0, j) =~= d);
    }
}

/// The generation of a log file name, where the name is `<decimal>.log`.
pub fn gen_of_file_name(name: &str) -> (r: Option<u64>)
    ensures
        r == gen_of_name(encode_utf8(name@)),
{
    let b = name.as_bytes();
    let len = b.len();
    if len <= 4 || b[len - 4] != 46 || b[len - 3] != 108 || b[len - 2] != 111 || b[len - 1] != 103 {
        proof {
            if len > 4 {
                assert(b@.subrange(len - 4, len as int)[0] == b@[len - 4]);
                assert(b@.subrange(len - 4, len as int)[1] == b@[len - 3]);
                assert(b@.subrange(len - 4, len as int)[2] == b@[len - 2]);
                assert(b@.subrange(len - 4, len as int)[3] == b@[len - 1]);
            }
        }
        return None;
    }
    assert(b@.subrange(len - 4, len as int) =~= log_suffix());
    let n = len - 4;
    let ghost d = b@.subrange(0, n as int);
    assert(b@ == encode_utf8(name@));
    assert(d.subrange(0, 0) =~= Seq::<u8>::empty());
    let mut v: u64 = 0;
    let mut i: usize = 0;
    while i < n
        invariant
            n == b@.len() - 4,
            b@.len() == len,
            len > 4,
            b@ == encode_utf8(name@),
            b@.subrange(n as int, len as int) == log_suffix(),
            d == b@.subrange(0, n as int),
            i <= n,
            forall|j: int| 0 <= j < i ==> is_digit(#[trigger] b@[j]),
            v == digits_value(d.subrange(0, i as int)),
        decreases n - i,
    {
        let c = b[i];
        if c < 48 || c > 57 {
            assert(!is_digit(b@[i as int]));
            return None;
        }
        proof {
            assert(d.subrange(0, i + 1).drop_last() =~= d.subrange(0, i as int));
            assert(d.subrange(0, i + 1).last() == c);
            assert(digits_value(d.subrange(0, i + 1)) == v * 10 + (c - 48));
        }
        let next = match v.checked_mul(10) {
            Some(t) => t.checked_add((c - 48) as u64),
            None => None,
        };
        match next {
            Some(t) => {
                v = t;
            },
            None => {
                proof {
                    if forall|k: int| 0 <= k < n ==> is_digit(#[trigger] b@[k]) {
                        assert forall|k: int| 0 <= k < d.len() implies is_digit(#[trigger] d[k]) by {
                            assert(d[k] == b@[k]);
                        }
                        lemma_digits_value_grows(d, i + 1);
                        assert(digits_value(d) > u64::MAX);
                    }
                }
                return None;
            },
        }
        i += 1;
    }
    assert(d.subrange(0, n as int) =~= d);
    Some(v)
}

/// Relies on slice::sort_unstable: sorts ascending, keeping the elements.
#[verifier::external_body]
fn sort_gens(v: &mut Vec<u64>)
    ensures
        final(v)@.to_multiset() == old(v)@.to_multiset(),
        forall|i: int, j: int| 0 <= i < j < final(v)@.len() ==> final(v)@[i] <= final(v)@[j],
{
    v.sort_unstable()
}

/// The generations that the file names give, ascending.
pub fn sorted_gen_list(names: &Vec<String>) -> (r: Vec<u64>)
    ensures
        r@.to_multiset() == names@.filter_map(|s: String| gen_of_name(encode_utf8(s@))).to_multiset(),
        forall|i: int, j: int| 0 <= i < j < r@.len() ==> r@[i] <= r@[j],
{
    let mut gens: Vec<u64> = Vec::new();
    let mut i: usize = 0;
    while i < names.len()
        invariant
            i <= names@.len(),
            gens@ == names@.subrange(0, i as int).filter_map(
                |s: String| gen_of_name(encode_utf8(s@)),
            ),
        decreases names@.len() - i,
    {
        let g = gen_of_file_name(names[i].as_str());
        proof {
            assert(names@.subrange(0, i + 1).drop_last() =~= names@.subrange(0, i as int));
        }
        match g {
            Some(x) => gens.push(x),
            None => {},
        }
        i += 1;
    }
    assert(names@.subrange(0, names@.len() as int) =~= names@);
    sort_gens(&mut gens);
    gens
}

/// The path of the log of generation `gen` in directory `dir`: the file
/// name alone where `dir` is empty, else `dir`, a `/`, and the file name.
pub fn log_path(dir: &str, gen: u64) -> (r: String)
    ensures
        r@ == (if dir@.len() == 0 {
            seq![]
        } else {
            dir@ + seq!['/']
        }) + decimal(gen as nat) + seq!['.', 'l', 'o', 'g'],
{
    let mut p = String::from_str(dir);
    if !dir.is_empty() {
        p.append("/");
    }
    push_decimal(&mut p, gen);
    p.append(".log");
    proof {
        reveal_strlit("/");
        reveal_strlit(".log");
    }
    assert(p@ =~= (if dir@.len() == 0 {
        seq![]
    } else {
        dir@ + seq!['/']
    }) + decimal(gen as nat) + seq!['.', 'l', 'o', 'g']);
    p
}

/// The generation that appends go to after opening a directory whose
/// logs have the ascending generations `gens`: one above the highest, or 1
/// where there is none; `None` where the highest is `u64::MAX`.
pub fn next_generation(gens: &Vec<u64>) -> (r: Option<u64>)
    ensures
        gens@.len() == 0 ==> r == Some(1u64),
        gens@.len() > 0 ==> r == (if gens@.last() < u64::MAX {
            Some((gens@.last() + 1) as u64)
        } else {
            None
        }),
{
    if gens.len() == 0 {
        Some(1)
    } else {
        let last = gens[gens.len() - 1];
        if last < u64::MAX {
            Some(last + 1)
        } else {
            None
        }
    }
}

} // verus!
