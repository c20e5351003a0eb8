//! English ordinal names as words, for generated identifiers: no digits in
//! the output. Large numbers are assembled from million, thousand and
//! hundred parts joined by underscores; the helper that turns a cardinal
//! part into an ordinal reuses the name itself and, where it does not end in
//! a known ordinal word, trims the trailing letters and appends "th".

use vstd::prelude::*;

use vstd::string::StrSliceExecFns;
use vstd::string::StringExecFns;

verus! {

/// An ASCII lowercase letter; the only letters these names ever hold.
pub open spec fn spec_is_letter(c: char) -> bool {
    97 <= c as u32 <= 122
}

/// The word with every trailing letter removed.
pub open spec fn spec_trim_letters(s: Seq<char>) -> Seq<char>
    decreases s.len(),
{
    if s.len() > 0 && spec_is_letter(s.last())  {
        spec_trim_letters(s.drop_last())
    } else {
        s
    }
}

/// Whether `s` ends in `suf`.
pub open spec fn spec_ends_with(s: Seq<char>, suf: Seq<char>) -> bool {
    s.len() >= suf.len() && s.subrange(s.len() - suf.len(), s.len() as int) == suf
}

/// The ordinal words up to twenty; zero gives the empty word.
pub open spec fn spec_small_ordinal(i: int) -> Seq<char> {
    if i == 1 {
        "first"@
    } else if i == 2 {
        "second"@
    } else if i == 3 {
        "third"@
    } else if i == 4 {
        "fourth"@
    } else if i == 5 {
        "fifth"@
    } else if i == 6 {
        "sixth"@
    } else if i == 7 {
        "seventh"@
    } else if i == 8 {
        "eighth"@
    } else if i == 9 {
        "ninth"@
    } else if i == 10 {
        "tenth"@
    } else if i == 11 {
        "eleventh"@
    } else if i == 12 {
        "twelfth"@
    } else if i == 13 {
        "thirteenth"@
    } else if i == 14 {
        "fourteenth"@
    } else if i == 15 {
        "fifteenth"@
    } else if i == 16 {
        "sixteenth"@
    } else if i == 17 {
        "seventeenth"@
    } else if i == 18 {
        "eighteenth"@
    } else if i == 19 {
        "nineteenth"@
    } else if i == 20 {
        "twentieth"@
    } else {
        Seq::<char>::empty()
    }
}

/// The tens words from twenty to ninety; anything else gives the empty word.
pub open spec fn spec_ten_name(t: int) -> Seq<char> {
    if t == 2 {
        "twenty"@
    } else if t == 3 {
        "thirty"@
    } else if t == 4 {
        "forty"@
    } else if t == 5 {
        "fifty"@
    } else if t == 6 {
        "sixty"@
    } else if t == 7 {
        "seventy"@
    } else if t == 8 {
        "eighty"@
    } else if t == 9 {
        "ninety"@
    } else {
        Seq::<char>::empty()
    }
}

/// The ordinal name of `i`, word by word.
pub open spec fn spec_ordinal_name(i: int) -> Seq<char>
    decreases i, 0int,
    via spec_ordinal_name_decreases
{
    if i <= 0 {
        "zeroth"@
    } else if i <= 20 {
        spec_small_ordinal(i)
    } else if i >= 1000000 {
        let millions = i / 1000000;
        let remainder = i % 1000000;
        let million_part = if millions == 1 {
            "one_million"@
        } else {
            spec_cardinal_to_ordinal(millions) + "_million"@
        };
        if remainder == 0 {
            million_part + "th"@
        } else {
            million_part + "_"@ + spec_ordinal_name(remainder)
        }
    } else if i >= 1000 {
        let thousands = i / 1000;
        let remainder = i % 1000;
        let thousand_part = if thousands == 1 {
            "one_thousand"@
        } else {
            spec_cardinal_to_ordinal(thousands) + "_thousand"@
        };
        if remainder == 0 {
            thousand_part + "th"@
        } else {
            thousand_part + "_"@ + spec_ordinal_name(remainder)
        }
    } else if i >= 100 {
        let hundreds = i / 100;
        let remainder = i % 100;
        let hundred_part = if hundreds == 1 {
            "one_hundred"@
        } else {
            spec_cardinal_to_ordinal(hundreds) + "_hundred"@
        };
        if remainder == 0 {
            hundred_part + "th"@
        } else {
            hundred_part + "_"@ + spec_ordinal_name(remainder)
        }
    } else {
        let tens = i / 10;
        let ones = i % 10;
        if ones > 0 {
            spec_ten_name(tens) + "-"@ + spec_small_ordinal(ones)
        } else {
            spec_ten_name(tens)
        }
    }
}

/// The ordinal of a cardinal part: the words up to twenty stand as they
/// are; beyond that the ordinal name is reused, trimmed of its trailing
/// letters and closed with "th" unless it already ends in a base ordinal.
pub open spec fn spec_cardinal_to_ordinal(n: int) -> Seq<char>
    decreases n, 1int,
    via spec_cardinal_to_ordinal_decreases
{
    if n <= 20 {
        spec_small_ordinal(n)
    } else {
        let s = spec_ordinal_name(n);
        if spec_ends_with(s, "first"@) || spec_ends_with(s, "second"@) || spec_ends_with(
            s,
            "third"@,
        ) {
            s
        } else {
            spec_trim_letters(s) + "th"@
        }
    }
}

#[via_fn]
proof fn spec_ordinal_name_decreases(i: int) {
    if i > 20 {
        if i >= 100 {
            let div = if i >= 1000000 {
                1000000int
            } else if i >= 1000 {
                1000int
            } else {
                100int
            };
            assert(0 < i / div < i && 0 <= i % div < i) by (nonlinear_arith)
                requires
                    i >= 100,
                    div == 1000000 || div == 1000 || div == 100,
                    i >= div,
            ;
        }
    }
}

#[via_fn]
proof fn spec_cardinal_to_ordinal_decreases(n: int) {
}

/// The ordinal word for a number up to twenty.
fn small_name(i: usize) -> (r: String)
    requires
        i <= 20,
    ensures
        r@ == spec_small_ordinal(i as int),
{
    if i == 1 {
        String::from_str("first")
    } else if i == 2 {
        String::from_str("second")
    } else if i == 3 {
        String::from_str("third")
    } else if i == 4 {
        String::from_str("fourth")
    } else if i == 5 {
        String::from_str("fifth")
    } else if i == 6 {
        String::from_str("sixth")
    } else if i == 7 {
        String::from_str("seventh")
    } else if i == 8 {
        String::from_str("eighth")
    } else if i == 9 {
        String::from_str("ninth")
    } else if i == 10 {
        String::from_str("tenth")
    } else if i == 11 {
        String::from_str("eleventh")
    } else if i == 12 {
        String::from_str("twelfth")
    } else if i == 13 {
        String::from_str("thirteenth")
    } else if i == 14 {
        String::from_str("fourteenth")
    } else if i == 15 {
        String::from_str("fifteenth")
    } else if i == 16 {
        String::from_str("sixteenth")
    } else if i == 17 {
        String::from_str("seventeenth")
    } else if i == 18 {
        String::from_str("eighteenth")
    } else if i == 19 {
        String::from_str("nineteenth")
    } else if i == 20 {
        String::from_str("twentieth")
    } else {
        proof {
            assert(Seq::<char>::empty() =~= ""@) by {
                reveal_strlit("");
            }
        }
        String::from_str("")
    }
}

/// The tens word for two through nine tens.
fn ten_name(t: usize) -> (r: String)
    requires
        2 <= t <= 9,
    ensures
        r@ == spec_ten_name(t as int),
{
    if t == 2 {
        String::from_str("twenty")
    } else if t == 3 {
        String::from_str("thirty")
    } else if t == 4 {
        String::from_str("forty")
    } else if t == 5 {
        String::from_str("fifty")
    } else if t == 6 {
        String::from_str("sixty")
    } else if t == 7 {
        String::from_str("seventy")
    } else if t == 8 {
        String::from_str("eighty")
    } else {
        String::from_str("ninety")
    }
}

/// Whether `s` ends in `suf`, character by character.
fn ends_with_str(s: &str, suf: &str) -> (r: bool)
    ensures
        r == spec_ends_with(s@, suf@),
{
    let n = s.unicode_len();
    let m = suf.unicode_len();
    if m > n {
        return false;
    }
    let mut k: usize = 0;
    while k < m
        invariant
            k <= m <= n,
            n == s@.len(),
            m == suf@.len(),
            forall|j: int| 0 <= j < k ==> s@[n - m + j] == suf@[j],
        decreases m - k,
    {
        if s.get_char(n - m + k) != suf.get_char(k) {
            proof {
                if spec_ends_with(s@, suf@) {
                    assert(s@.subrange(n - m, n as int)[k as int] == s@[n - m + k]);
                }
            }
            return false;
        }
        k = k + 1;
    }
    proof {
        assert(s@.subrange(n - m, n as int) =~= suf@);
    }
    true
}

/// Strip the trailing letters off `s`.
fn trim_letters(s: &str) -> (r: &str)
    ensures
        r@ == spec_trim_letters(s@),
{
    let n = s.unicode_len();
    let mut k: usize = n;
    proof {
        assert(s@.subrange(0, n as int) =~= s@);
    }
    let mut stop = false;
    while !stop
        invariant
            k <= n,
            n == s@.len(),
            spec_trim_letters(s@) == spec_trim_letters(s@.subrange(0, k as int)),
            stop ==> k == 0 || !spec_is_letter(s@[k - 1]),
        decreases k + (if stop {
            0int
        } else {
            1int
        }),
    {
        if k == 0 {
            stop = true;
        } else {
            let c = s.get_char(k - 1);
            let u = c as u32;
            if 97 <= u && u <= 122 {
                proof {
                    let pre = s@.subrange(0, k as int);
                    assert(pre.last() == s@[k - 1]);
                    assert(spec_is_letter(pre.last()));
                    assert(pre.drop_last() =~= s@.subrange(0, k - 1));
                }
                k = k - 1;
            } else {
                stop = true;
            }
        }
    }
    let r = s.substring_char(0, k);
    proof {
        let pre = s@.subrange(0, k as int);
        if k > 0 {
            assert(pre.last() == s@[k - 1]);
            assert(!spec_is_letter(pre.last()));
        }
        assert(spec_trim_letters(pre) == pre);
    }
    r
}

/// The English ordinal name of `i` as a word: no digits, parts joined by
/// underscores, compounds below one hundred joined by a hyphen.
pub fn ordinal_name(i: usize) -> (r: String)
    ensures
        r@ == spec_ordinal_name(i as int),
    decreases i, 0int,
{
    if i == 0 {
        return String::from_str("zeroth");
    }
    if i <= 20 {
        return small_name(i);
    }
    if i >= 1000000 {
        let millions = i / 1000000;
        let remainder = i % 1000000;
        proof {
            assert(0 < millions < i && remainder < i) by (nonlinear_arith)
                requires
                    i >= 1000000,
                    millions == i as int / 1000000,
                    remainder == i as int % 1000000,
            ;
        }
        let million_part = if millions == 1 {
            String::from_str("one_million")
        } else {
            cardinal_to_ordinal(millions).concat("_million")
        };
        let r = if remainder == 0 {
            million_part.concat("th")
        } else {
            million_part.concat("_").concat(ordinal_name(remainder).as_str())
        };
        proof {
            assert(r@ =~= spec_ordinal_name(i as int));
        }
        return r;
    }
    if i >= 1000 {
        let thousands = i / 1000;
        let remainder = i % 1000;
        proof {
            assert(0 < thousands < i && remainder < i) by (nonlinear_arith)
                requires
                    1000 <= i < 1000000,
                    thousands == i as int / 1000,
                    remainder == i as int % 1000,
            ;
        }
        let thousand_part = if thousands == 1 {
            String::from_str("one_thousand")
        } else {
            cardinal_to_ordinal(thousands).concat("_thousand")
        };
        let r = if remainder == 0 {
            thousand_part.concat("th")
        } else {
            thousand_part.concat("_").concat(ordinal_name(remainder).as_str())
        };
        proof {
            assert(r@ =~= spec_ordinal_name(i as int));
        }
        return r;
    }
    if i >= 100 {
        let hundreds = i / 100;
        let remainder = i % 100;
        proof {
            assert(0 < hundreds < i && remainder < i) by (nonlinear_arith)
                requires
                    100 <= i < 1000,
                    hundreds == i as int / 100,
                    remainder == i as int % 100,
            ;
        }
        let hundred_part = if hundreds == 1 {
            String::from_str("one_hundred")
        } else {
            cardinal_to_ordinal(hundreds).concat("_hundred")
        };
        let r = if remainder == 0 {
            hundred_part.concat("th")
        } else {
            hundred_part.concat("_").concat(ordinal_name(remainder).as_str())
        };
        proof {
            assert(r@ =~= spec_ordinal_name(i as int));
        }
        return r;
    }
    let tens = i / 10;
    let ones = i % 10;
    proof {
        assert(2 <= tens <= 9 && ones <= 9) by (nonlinear_arith)
            requires
                20 < i < 100,
                tens == i as int / 10,
                ones == i as int % 10,
        ;
    }
    let base = ten_name(tens);
    let r = if ones > 0 {
        base.concat("-").concat(small_name(ones).as_str())
    } else {
        base
    };
    proof {
        assert(r@ =~= spec_ordinal_name(i as int));
    }
    r
}

/// Turn a cardinal part into an ordinal word by reusing the ordinal name:
/// left alone when it already ends in a base ordinal, otherwise trimmed of
/// its trailing letters and closed with "th".
pub fn cardinal_to_ordinal(n: usize) -> (r: String)
    ensures
        r@ == spec_cardinal_to_ordinal(n as int),
    decreases n, 1int,
{
    if n <= 20 {
        return small_name(n);
    }
    let s = ordinal_name(n);
    if ends_with_str(s.as_str(), "first") || ends_with_str(s.as_str(), "second") || ends_with_str(
        s.as_str(),
        "third",
    ) {
        s
    } else {
        let t = trim_letters(s.as_str());
        let r = t.to_owned().concat("th");
        proof {
            assert(r@ =~= spec_cardinal_to_ordinal(n as int));
        }
        r
    }
}

} // verus!
