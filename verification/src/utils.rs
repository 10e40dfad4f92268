//! Pure helpers: human-readable size formatting, path display shortening,
//! and extraction of a file name's extension.

use vstd::prelude::*;

verus! {

use vstd::string::StrSliceExecFns;
use vstd::string::StringExecFns;

/// The decimal digit character for `d`.
pub open spec fn digit_char(d: nat) -> char {
    if d == 0 {
        '0'
    } else if d == 1 {
        '1'
    } else if d == 2 {
        '2'
    } else if d == 3 {
        '3'
    } else if d == 4 {
        '4'
    } else if d == 5 {
        '5'
    } else if d == 6 {
        '6'
    } else if d == 7 {
        '7'
    } else if d == 8 {
        '8'
    } else {
        '9'
    }
}

/// The decimal rendering of `n`, most significant digit first.
pub open spec fn decimal_seq(n: nat) -> Seq<char>
    decreases n,
{
    if n < 10 {
        seq![digit_char(n)]
    } else {
        decimal_seq(n / 10).push(digit_char(n % 10))
    }
}

/// The one-character string for the digit `d`.
fn digit_str(d: u64) -> (r: &'static str)
    requires
        d < 10,
    ensures
        r@ == seq![digit_char(d as nat)],
{
    if d == 0 {
        proof {
            reveal_strlit("0");
            assert("0"@ =~= seq!['0']);
        }
        "0"
    } else if d == 1 {
        proof {
            reveal_strlit("1");
            assert("1"@ =~= seq!['1']);
        }
        "1"
    } else if d == 2 {
        proof {
            reveal_strlit("2");
            assert("2"@ =~= seq!['2']);
        }
        "2"
    } else if d == 3 {
        proof {
            reveal_strlit("3");
            assert("3"@ =~= seq!['3']);
        }
        "3"
    } else if d == 4 {
        proof {
            reveal_strlit("4");
            assert("4"@ =~= seq!['4']);
        }
        "4"
    } else if d == 5 {
        proof {
            reveal_strlit("5");
            assert("5"@ =~= seq!['5']);
        }
        "5"
    } else if d == 6 {
        proof {
            reveal_strlit("6");
            assert("6"@ =~= seq!['6']);
        }
        "6"
    } else if d == 7 {
        proof {
            reveal_strlit("7");
            assert("7"@ =~= seq!['7']);
        }
        "7"
    } else if d == 8 {
        proof {
            reveal_strlit("8");
            assert("8"@ =~= seq!['8']);
        }
        "8"
    } else {
        proof {
            reveal_strlit("9");
            assert("9"@ =~= seq!['9']);
        }
        "9"
    }
}

/// Appends the decimal rendering of `n` to `s`.
fn push_decimal(s: &mut String, n: u64)
    ensures
        final(s)@ == old(s)@ + decimal_seq(n as nat),
    decreases n,
{
    let ghost pre = s@;
    if n >= 10 {
        push_decimal(s, n / 10);
    }
    let d = digit_str(n % 10);
    s.append(d);
    proof {
        if n < 10 {
            assert(s@ =~= pre + decimal_seq(n as nat));
        } else {
            assert(decimal_seq(n as nat) == decimal_seq((n / 10) as nat).push(
                digit_char((n % 10) as nat),
            ));
            assert(s@ =~= pre + decimal_seq(n as nat));
        }
    }
}

/// The human-scaled rendering of a byte count: the count is divided by 1024
/// until the next division would truncate to zero, and rendered with the
/// matching unit (B, KB, MB or GB), truncating rather than rounding.
pub open spec fn pp_size_spec(size: u64) -> Seq<char> {
    let kb: int = size as int / 1024;
    let mb: int = kb / 1024;
    let gb: int = mb / 1024;
    if gb > 0 {
        decimal_seq(gb as nat) + seq!['G', 'B']
    } else if mb > 0 {
        decimal_seq(mb as nat) + seq!['M', 'B']
    } else if kb > 0 {
        decimal_seq(kb as nat) + seq!['K', 'B']
    } else {
        decimal_seq(size as nat) + seq!['B']
    }
}

/// Renders a byte count human-readably, e.g. `1536` as `"1KB"`.
pub fn pp_size(size: u64) -> (r: String)
    ensures
        r@ == pp_size_spec(size),
{
    let kb: u64 = size / 1024;
    let mb: u64 = kb / 1024;
    let gb: u64 = mb / 1024;
    let mut s = String::new();
    if gb > 0 {
        push_decimal(&mut s, gb);
        s.append("GB");
        proof {
            reveal_strlit("GB");
            assert("GB"@ =~= seq!['G', 'B']);
            assert(s@ =~= pp_size_spec(size));
        }
    } else if mb > 0 {
        push_decimal(&mut s, mb);
        s.append("MB");
        proof {
            reveal_strlit("MB");
            assert("MB"@ =~= seq!['M', 'B']);
            assert(s@ =~= pp_size_spec(size));
        }
    } else if kb > 0 {
        push_decimal(&mut s, kb);
        s.append("KB");
        proof {
            reveal_strlit("KB");
            assert("KB"@ =~= seq!['K', 'B']);
            assert(s@ =~= pp_size_spec(size));
        }
    } else {
        push_decimal(&mut s, size);
        s.append("B");
        proof {
            reveal_strlit("B");
            assert("B"@ =~= seq!['B']);
            assert(s@ =~= pp_size_spec(size));
        }
    }
    s
}

/// Whether the first `n` characters of `p` and `h` agree.
fn str_prefix_eq(p: &str, h: &str, n: usize) -> (b: bool)
    requires
        n <= p@.len(),
        n <= h@.len(),
    ensures
        b == (p@.subrange(0, n as int) == h@.subrange(0, n as int)),
{
    let mut i: usize = 0;
    while i < n
        invariant
            i <= n,
            n <= p@.len(),
            n <= h@.len(),
            forall|k: int| 0 <= k < i ==> p@[k] == h@[k],
        decreases n - i,
    {
        if p.get_char(i) != h.get_char(i) {
            proof {
                assert(p@.subrange(0, n as int)[i as int] != h@.subrange(0, n as int)[i as int]);
            }
            return false;
        }
        i += 1;
    }
    proof {
        assert(p@.subrange(0, n as int) =~= h@.subrange(0, n as int));
    }
    true
}

/// Whether path `p` lies under the directory `h`: it is `h` itself, or
/// continues `h` with a path separator. Paths are compared character for
/// character, so both are expected in the same (normalized) spelling.
pub open spec fn lies_under(p: Seq<char>, h: Seq<char>) -> bool {
    p == h || (p.len() > h.len() && p.subrange(0, h.len() as int) == h && p[h.len() as int] == '/')
}

/// Whether `path` lies under the directory `home`.
pub fn is_under(path: &str, home: &str) -> (b: bool)
    ensures
        b == lies_under(path@, home@),
{
    let pl = path.unicode_len();
    let hl = home.unicode_len();
    if pl == hl {
        let eq = str_prefix_eq(path, home, pl);
        proof {
            assert(path@.subrange(0, pl as int) =~= path@);
            assert(home@.subrange(0, hl as int) =~= home@);
        }
        eq
    } else if pl > hl {
        if !str_prefix_eq(path, home, hl) {
            proof {
                assert(home@.subrange(0, hl as int) =~= home@);
                assert(path@.len() != home@.len());
            }
            return false;
        }
        let c = path.get_char(hl);
        proof {
            assert(home@.subrange(0, hl as int) =~= home@);
            assert(path@.len() != home@.len());
        }
        c == '/'
    } else {
        proof {
            assert(path@.len() != home@.len());
        }
        false
    }
}

/// What remains of `p` below home `h`: empty when they are equal, else the
/// part after the one separator that follows `h`. The model is character
/// level, not component level: exactly one separator is skipped, so a
/// non-normalized path such as `/h//x` under home `/h` keeps its extra
/// separator in the remainder.
pub open spec fn home_rest(p: Seq<char>, h: Seq<char>) -> Seq<char> {
    if p == h {
        Seq::empty()
    } else {
        p.skip(h.len() + 1 as int)
    }
}

/// The display form of a path: under the home directory it is shortened to
/// `~/` plus the rest; a leading `./` is stripped; any other path is shown
/// unchanged. Paths and the home directory are modeled as plain character
/// sequences (see [`lies_under`] and [`home_rest`]), not decomposed into
/// components.
pub open spec fn pp_path_spec(p: Seq<char>, home: Option<Seq<char>>) -> Seq<char> {
    if home is Some && lies_under(p, home->0) {
        seq!['~', '/'] + home_rest(p, home->0)
    } else if p.len() >= 2 && p[0] == '.' && p[1] == '/' {
        p.skip(2)
    } else {
        p
    }
}

/// Strips a leading `./` from `path`, leaving any other path unchanged.
fn strip_dot_slash(path: &str) -> (r: String)
    ensures
        r@ == (if path@.len() >= 2 && path@[0] == '.' && path@[1] == '/' {
            path@.skip(2)
        } else {
            path@
        }),
{
    let pl = path.unicode_len();
    if pl >= 2 && path.get_char(0) == '.' && path.get_char(1) == '/' {
        let rest = path.substring_char(2, pl);
        proof {
            assert(path@.subrange(2, pl as int) =~= path@.skip(2));
        }
        rest.to_owned()
    } else {
        path.to_owned()
    }
}

/// Renders `path` for display, given the home directory `home` (if any):
/// a path under `home` is shortened to `~/` plus the rest, a leading `./`
/// is stripped, and any other path is returned unchanged.
pub fn pp_path_with_home(path: &str, home: Option<&str>) -> (r: String)
    ensures
        r@ == pp_path_spec(
            path@,
            (match home {
                Some(h) => Some(h@),
                None => None,
            }),
        ),
{
    match home {
        Some(h) => {
            if is_under(path, h) {
                let pl = path.unicode_len();
                let hl = h.unicode_len();
                let mut s = String::from_str("~/");
                proof {
                    reveal_strlit("~/");
                    assert(s@ =~= seq!['~', '/']);
                }
                if pl > hl {
                    let rest = path.substring_char(hl + 1, pl);
                    s.append(rest);
                    proof {
                        assert(path@.subrange(hl + 1, pl as int) =~= path@.skip(hl + 1));
                        assert(path@ != h@);
                        assert(s@ =~= seq!['~', '/'] + home_rest(path@, h@));
                    }
                } else {
                    proof {
                        assert(path@ == h@);
                        assert(s@ =~= seq!['~', '/'] + home_rest(path@, h@));
                    }
                }
                s
            } else {
                strip_dot_slash(path)
            }
        },
        None => strip_dot_slash(path),
    }
}

/// Relies on dirs::home_dir: the user's home directory as the environment
/// reports it, rendered as a string when it is valid Unicode. The outcome
/// depends on the environment, so nothing is promised of it.
#[verifier::external_body]
fn home_dir_string() -> (r: Option<String>) {
    dirs::home_dir().and_then(|p| p.to_str().map(|s| s.to_string()))
}

/// Renders `path` for display, shortening it under the user's home
/// directory as [`pp_path_with_home`] does with the home directory the
/// environment reports.
pub fn pp_path(path: &str) -> (r: String)
    ensures
        exists|h: Option<Seq<char>>| r@ == pp_path_spec(path@, h),
{
    let home = home_dir_string();
    match home {
        Some(h) => {
            let r = pp_path_with_home(path, Some(h.as_str()));
            proof {
                assert(r@ == pp_path_spec(path@, Some(h@)));
            }
            r
        },
        None => {
            let r = pp_path_with_home(path, None);
            proof {
                assert(r@ == pp_path_spec(path@, Option::<Seq<char>>::None));
            }
            r
        },
    }
}

/// The index of the last occurrence of `c` in `s`, or -1 when `c` does not
/// occur.
pub open spec fn last_index_of(s: Seq<char>, c: char) -> int
    decreases s.len(),
{
    if s.len() == 0 {
        -1
    } else if s.last() == c {
        s.len() - 1
    } else {
        last_index_of(s.drop_last(), c)
    }
}

/// Finds the last occurrence of `c` in `s`.
fn last_index(s: &str, c: char) -> (r: Option<usize>)
    ensures
        (match r {
            Some(i) => i < s@.len() && last_index_of(s@, c) == i,
            None => last_index_of(s@, c) == -1,
        }),
{
    let n = s.unicode_len();
    let mut k: usize = n;
    proof {
        assert(s@.take(n as int) =~= s@);
    }
    while k > 0
        invariant
            k <= n,
            n == s@.len(),
            last_index_of(s@.take(k as int), c) == last_index_of(s@, c),
        decreases k,
    {
        let ch = s.get_char(k - 1);
        if ch == c {
            proof {
                assert(s@.take(k as int).last() == c);
            }
            return Some(k - 1);
        }
        proof {
            assert(s@.take(k as int).last() != c);
            assert(s@.take(k as int).drop_last() =~= s@.take(k - 1));
        }
        k -= 1;
    }
    proof {
        assert(s@.take(0) =~= Seq::<char>::empty());
    }
    None
}

/// The file-name part of a path: everything after the last separator, or
/// the whole path when there is none.
pub open spec fn file_name_spec(p: Seq<char>) -> Seq<char> {
    p.skip(last_index_of(p, '/') + 1)
}

/// The extension of a path: the part of its file name after the last dot,
/// without the dot. A file name without a dot, or whose only dot leads it
/// (a dotfile), has none.
pub open spec fn extension_spec(p: Seq<char>) -> Option<Seq<char>> {
    let name = file_name_spec(p);
    let d: int = last_index_of(name, '.');
    if d >= 1 {
        Some(name.skip(d + 1))
    } else {
        None
    }
}

/// Extracts the extension of `path`, as [`extension_spec`] describes.
pub fn extension_of(path: &str) -> (r: Option<String>)
    ensures
        r is Some <==> extension_spec(path@) is Some,
        r is Some ==> r->0@ == extension_spec(path@)->0,
{
    let pl = path.unicode_len();
    let start: usize = match last_index(path, '/') {
        Some(i) => i + 1,
        None => 0,
    };
    let name = path.substring_char(start, pl);
    proof {
        assert(path@.subrange(start as int, pl as int) =~= path@.skip(start as int));
        assert(name@ == file_name_spec(path@));
    }
    let nl = name.unicode_len();
    match last_index(name, '.') {
        Some(d) => {
            if d >= 1 {
                let ext = name.substring_char(d + 1, nl);
                proof {
                    assert(name@.subrange(d + 1, nl as int) =~= name@.skip(d + 1));
                }
                Some(ext.to_owned())
            } else {
                None
            }
        },
        None => None,
    }
}

} // verus!
