//! Names of segment files: `<gen>.log`, with `<gen>` in decimal.
use vstd::prelude::*;
use vstd::string::{StrSliceExecFns, StringExecFns};

verus! {

pub open spec fn is_digit(c: char) -> bool {
    '0' <= c && c <= '9'
}

pub open spec fn digit_value(c: char) -> int {
    (c as u32) - 48
}

/// The number that a string of decimal digits spells.
pub open spec fn digits_value(s: Seq<char>) -> int
    decreases s.len(),
{
    if s.len() == 0 {
        0
    } else {
        digits_value(s.drop_last()) * 10 + digit_value(s.last())
    }
}

/// A number written the usual way: digits only, no leading zero.
pub open spec fn is_decimal(s: Seq<char>) -> bool {
    &&& s.len() >= 1
    &&& forall|i: int| 0 <= i < s.len() ==> is_digit(#[trigger] s[i])
    &&& (s.len() == 1 || s[0] != '0')
}

/// `.log`
pub open spec fn log_suffix() -> Seq<char> {
    seq!['.', 'l', 'o', 'g']
}

/// `name` is the file name of segment `gen`, a positive generation.
pub open spec fn is_log_name(name: Seq<char>, gen: int) -> bool {
    &&& gen >= 1
    &&& name.len() >= 5
    &&& name.subrange(name.len() - 4, name.len() as int) == log_suffix()
    &&& is_decimal(name.subrange(0, name.len() - 4))
    &&& digits_value(name.subrange(0, name.len() - 4)) == gen
}

proof fn lemma_digits_value_grows(s: Seq<char>, i: int, j: int)
    requires
        0 <= i <= j <= s.len(),
        forall|k: int| 0 <= k < s.len() ==> is_digit(#[trigger] s[k]),
    ensures
        digits_value(s.subrange(0, i)) <= digits_value(s.subrange(0, j)),
    decreases j - i,
{
    if i < j {
        lemma_digits_value_grows(s, i, j - 1);
        assert(s.subrange(0, j).drop_last() =~= s.subrange(0, j - 1));
        assert(digits_value(s.subrange(0, j - 1)) >= 0) by {
            lemma_digits_value_nonneg(s.subrange(0, j - 1));
        }
    }
}

proof fn lemma_digits_value_nonneg(s: Seq<char>)
    requires
        forall|k: int| 0 <= k < s.len() ==> is_digit(#[trigger] s[k]),
    ensures
        digits_value(s) >= 0,
    decreases s.len(),
{
    if s.len() > 0 {
        lemma_digits_value_nonneg(s.drop_last());
    }
}

/// The one-character text of a decimal digit.
fn digit_text(d: u64) -> (r: String)
    requires
        d < 10,
    ensures
        r@.len() == 1,
        is_digit(r@[0]),
        digit_value(r@[0]) == d,
{
    match d {
        0 => {
            proof {
                reveal_strlit("0");
            }
            "0".to_owned()
        },
        1 => {
            proof {
                reveal_strlit("1");
            }
            "1".to_owned()
        },
        2 => {
            proof {
                reveal_strlit("2");
            }
            "2".to_owned()
        },
        3 => {
            proof {
                reveal_strlit("3");
            }
            "3".to_owned()
        },
        4 => {
            proof {
                reveal_strlit("4");
            }
            "4".to_owned()
        },
        5 => {
            proof {
                reveal_strlit("5");
            }
            "5".to_owned()
        },
        6 => {
            proof {
                reveal_strlit("6");
            }
            "6".to_owned()
        },
        7 => {
            proof {
                reveal_strlit("7");
            }
            "7".to_owned()
        },
        8 => {
            proof {
                reveal_strlit("8");
            }
            "8".to_owned()
        },
        9 => {
            proof {
                reveal_strlit("9");
            }
            "9".to_owned()
        },
        _ => {
            proof {
                reveal_strlit("9");
            }
            "9".to_owned()
        },
    }
}

/// The decimal text of `n`: its digits, with no sign, padding or leading zero.
fn decimal_text(n: u64) -> (r: String)
    ensures
        is_decimal(r@),
        digits_value(r@) == n,
    decreases n,
{
    if n < 10 {
        let r = digit_text(n);
        proof {
            assert(r@.drop_last() =~= Seq::<char>::empty());
            assert(digits_value(Seq::<char>::empty()) == 0);
            assert(r@.last() == r@[0]);
        }
        r
    } else {
        let mut r = decimal_text(n / 10);
        let ghost head = r@;
        let d = digit_text(n % 10);
        r.append(d.as_str());
        proof {
            assert(r@.drop_last() =~= head);
            assert(r@.last() == d@[0]);
            assert(r@[0] == head[0]);
            assert forall|i: int| 0 <= i < r@.len() implies is_digit(#[trigger] r@[i]) by {
                if i < head.len() {
                    assert(r@[i] == head[i]);
                }
            }
            assert(digits_value(r@) == (n / 10) * 10 + n % 10);
            if head[0] == '0' {
                assert(head.len() == 1);
                assert(head.drop_last() =~= Seq::<char>::empty());
                assert(('0' as u32) == 48);
                assert(head.last() == head[0]);
                assert(digits_value(Seq::<char>::empty()) == 0);
                assert(digits_value(head) == 0);
            }
        }
        r
    }
}

/// The file name of segment `gen`.
pub fn log_file_name(gen: u64) -> (r: String)
    requires
        gen >= 1,
    ensures
        is_log_name(r@, gen as int),
{
    let mut r = decimal_text(gen);
    let ghost d = r@;
    r.append(".log");
    proof {
        reveal_strlit(".log");
        assert(r@.subrange(0, r@.len() - 4) =~= d);
        assert(r@.subrange(r@.len() - 4, r@.len() as int) =~= log_suffix());
    }
    r
}

/// The path of segment `gen` under the directory `dir`.
pub fn log_path(dir: &str, gen: u64) -> (r: String)
    requires
        gen >= 1,
    ensures
        r@.len() > dir@.len() + 1,
        r@.subrange(0, dir@.len() as int) == dir@,
        r@[dir@.len() as int] == '/',
        is_log_name(r@.skip(dir@.len() + 1 as int), gen as int),
{
    let mut r = String::from_str(dir);
    r.append("/");
    let name = log_file_name(gen);
    r.append(name.as_str());
    proof {
        reveal_strlit("/");
        assert(r@.subrange(0, dir@.len() as int) =~= dir@);
        assert(r@.skip(dir@.len() + 1 as int) =~= name@);
    }
    r
}

/// The generation that a file name stands for, if it is the name of a segment.
pub fn parse_log_name(name: &str) -> (r: Option<u64>)
    ensures
        match r {
            Some(g) => is_log_name(name@, g as int),
            None => forall|g: u64| !is_log_name(name@, g as int),
        },
{
    let n = name.unicode_len();
    if n < 5 {
        return None;
    }
    let stem_len = n - 4;
    if name.get_char(stem_len) != '.' || name.get_char(stem_len + 1) != 'l' || name.get_char(
        stem_len + 2,
    ) != 'o' || name.get_char(stem_len + 3) != 'g' {
        proof {
            assert forall|g: u64| !is_log_name(name@, g as int) by {
                if name@.subrange(n - 4, n as int) == log_suffix() {
                    assert(name@.subrange(n - 4, n as int)[0] == name@[n - 4]);
                    assert(name@.subrange(n - 4, n as int)[1] == name@[n - 3]);
                    assert(name@.subrange(n - 4, n as int)[2] == name@[n - 2]);
                    assert(name@.subrange(n - 4, n as int)[3] == name@[n - 1]);
                }
            }
        }
        return None;
    }
    assert(name@.subrange(n - 4, n as int) =~= log_suffix());
    let ghost stem = name@.subrange(0, stem_len as int);
    if stem_len > 1 && name.get_char(0) == '0' {
        return None;
    }
    let mut value: u64 = 0;
    let mut i: usize = 0;
    while i < stem_len
        invariant
            stem_len == n - 4,
            n == name@.len(),
            stem == name@.subrange(0, stem_len as int),
            i <= stem_len,
            forall|k: int| 0 <= k < i ==> is_digit(#[trigger] stem[k]),
            value == digits_value(stem.subrange(0, i as int)),
        decreases stem_len - i,
    {
        let c = name.get_char(i);
        if c < '0' || c > '9' {
            assert(stem[i as int] == c);
            return None;
        }
        assert(stem.subrange(0, i + 1).drop_last() =~= stem.subrange(0, i as int));
        let d = (c as u32 - 48) as u64;
        if value > (u64::MAX - d) / 10 {
            proof {
                assert(stem.subrange(0, i + 1).last() == c);
                assert(digits_value(stem.subrange(0, i + 1)) > u64::MAX) by (nonlinear_arith)
                    requires
                        digits_value(stem.subrange(0, i + 1)) == value * 10 + d,
                        value > (u64::MAX - d) / 10,
                        0 <= d <= 9,
                ;
                assert forall|g: u64| !is_log_name(name@, g as int) by {
                    if is_log_name(name@, g as int) {
                        lemma_digits_value_grows(stem, i + 1, stem.len() as int);
                        assert(stem.subrange(0, stem.len() as int) =~= stem);
                    }
                }
            }
            return None;
        }
        value = value * 10 + d;
        i = i + 1;
    }
    assert(stem.subrange(0, stem_len as int) =~= stem);
    if value == 0 {
        return None;
    }
    Some(value)
}

/// The generations of the segment files among `names`, in ascending order,
/// each once.
pub fn sorted_gen_list(names: &Vec<String>) -> (r: Vec<u64>)
    ensures
        forall|i: int, j: int| 0 <= i < j < r@.len() ==> r@[i] < r@[j],
        forall|g: u64|
            r@.contains(g) <==> exists|i: int|
                0 <= i < names@.len() && is_log_name(#[trigger] names@[i]@, g as int),
{
    let mut gens: Vec<u64> = Vec::new();
    let mut k: usize = 0;
    while k < names.len()
        invariant
            k <= names@.len(),
            forall|i: int, j: int| 0 <= i < j < gens@.len() ==> gens@[i] < gens@[j],
            forall|g: u64|
                gens@.contains(g) <==> exists|i: int|
                    0 <= i < k && is_log_name(#[trigger] names@[i]@, g as int),
        decreases names@.len() - k,
    {
        match parse_log_name(names[k].as_str()) {
            Some(g) => {
                let mut p: usize = 0;
                while p < gens.len() && gens[p] < g
                    invariant
                        p <= gens@.len(),
                        forall|i: int| 0 <= i < p ==> gens@[i] < g,
                    decreases gens@.len() - p,
                {
                    p = p + 1;
                }
                let ghost before = gens@;
                if p < gens.len() && gens[p] == g {
                    assert(before[p as int] == g);
                } else {
                    gens.insert(p, g);
                    proof {
                        assert forall|x: u64| gens@.contains(x) <==> (before.contains(x) || x
                            == g) by {
                            if gens@.contains(x) {
                                let t = choose|t: int| 0 <= t < gens@.len() && gens@[t] == x;
                                if t < p {
                                    assert(before[t] == x);
                                } else if t > p {
                                    assert(before[t - 1] == x);
                                }
                            }
                            if before.contains(x) {
                                let t = choose|t: int| 0 <= t < before.len() && before[t] == x;
                                if t < p {
                                    assert(gens@[t] == x);
                                } else {
                                    assert(gens@[t + 1] == x);
                                }
                            }
                            if x == g {
                                assert(gens@[p as int] == x);
                            }
                        }
                    }
                }
                proof {
                    assert forall|x: u64| gens@.contains(x) <==> (before.contains(x) || x == g) by {
                        if p < before.len() && before[p as int] == g && x == g {
                            assert(before.contains(x));
                        }
                    }
                    assert forall|x: u64| gens@.contains(x) <==> exists|i: int|
                        0 <= i < k + 1 && is_log_name(#[trigger] names@[i]@, x as int) by {
                        if x == g {
                            assert(is_log_name(names@[k as int]@, x as int));
                        }
                        if before.contains(x) {
                            let i = choose|i: int|
                                0 <= i < k && is_log_name(#[trigger] names@[i]@, x as int);
                            assert(0 <= i < k + 1 && is_log_name(names@[i]@, x as int));
                        }
                        if exists|i: int|
                            0 <= i < k + 1 && is_log_name(#[trigger] names@[i]@, x as int) {
                            let i = choose|i: int|
                                0 <= i < k + 1 && is_log_name(#[trigger] names@[i]@, x as int);
                            if i == k {
                                lemma_log_name_unique(names@[i]@, x as int, g as int);
                            } else {
                                assert(exists|j: int|
                                    0 <= j < k && is_log_name(#[trigger] names@[j]@, x as int));
                            }
                        }
                    }
                }
            },
            None => {
                proof {
                    assert forall|x: u64| gens@.contains(x) <==> exists|i: int|
                        0 <= i < k + 1 && is_log_name(#[trigger] names@[i]@, x as int) by {
                        if exists|i: int|
                            0 <= i < k + 1 && is_log_name(#[trigger] names@[i]@, x as int) {
                            let i = choose|i: int|
                                0 <= i < k + 1 && is_log_name(#[trigger] names@[i]@, x as int);
                            assert(i != k);
                        }
                    }
                }
            },
        }
        k = k + 1;
    }
    gens
}

proof fn lemma_log_name_unique(name: Seq<char>, a: int, b: int)
    requires
        is_log_name(name, a),
        is_log_name(name, b),
    ensures
        a == b,
{
}

} // verus!
