//! Character-level helpers shared by the parser, the key formatter and the
//! placement planner: decimal rendering, zero-padding, path joining and the
//! basename / extension split of plain path strings.

use vstd::prelude::*;

verus! {

/// The ASCII digit character for `d` (meaningful for `0 <= d <= 9`).
pub open spec fn digit_char(d: int) -> char {
    if d == 0 {
        '0'
    } else if d == 1 {
        '1'
    } else if d == 2 {
        '2'
    } else if d == 3 {
        '3'
    } else if d == 4 {
        '4'
    } else if d == 5 {
        '5'
    } else if d == 6 {
        '6'
    } else if d == 7 {
        '7'
    } else if d == 8 {
        '8'
    } else {
        '9'
    }
}

/// The decimal rendering of `n`, most significant digit first, no sign and no
/// leading zeros (`0` renders as `"0"`).
pub open spec fn dec_digits(n: nat) -> Seq<char>
    decreases n,
{
    if n < 10 {
        seq![digit_char(n as int)]
    } else {
        dec_digits(n / 10) + seq![digit_char((n % 10) as int)]
    }
}

/// The decimal rendering of `m`, left-padded with `'0'` to at least `w`
/// characters; wider values render in full.
pub open spec fn padded_decimal(m: nat, w: nat) -> Seq<char> {
    if dec_digits(m).len() >= w {
        dec_digits(m)
    } else {
        Seq::new((w - dec_digits(m).len()) as nat, |i: int| '0') + dec_digits(m)
    }
}

/// `'-'` for negative values, `'+'` otherwise (zero renders positive).
pub open spec fn sign_char(v: int) -> char {
    if v < 0 {
        '-'
    } else {
        '+'
    }
}

/// A signed fixed-width decimal field: explicit sign, then the magnitude
/// zero-padded to at least `w` digits.
pub open spec fn signed_field(v: int, w: nat) -> Seq<char> {
    seq![sign_char(v)] + padded_decimal(vstd::math::abs(v), w)
}

/// Joining a relative `name` under `base`, inserting a `/` separator unless
/// `base` is empty or already ends with one.
pub open spec fn join_spec(base: Seq<char>, name: Seq<char>) -> Seq<char> {
    if base.len() == 0 {
        name
    } else if base.last() == '/' {
        base + name
    } else {
        base + seq!['/'] + name
    }
}

/// The longest suffix of `p` that holds no `/`: the final path component, or
/// the empty sequence when `p` ends with a separator.
pub open spec fn basename_of(p: Seq<char>) -> Seq<char>
    decreases p.len(),
{
    if p.len() == 0 {
        p
    } else if p.last() == '/' {
        Seq::<char>::empty()
    } else {
        basename_of(p.drop_last()) + seq![p.last()]
    }
}

/// The extension of a file name: the part after the last `.` that stands at
/// index 1 or later, or `None` when there is no such dot. A leading dot alone
/// (as in `.bashrc`) starts no extension.
pub open spec fn ext_of(name: Seq<char>) -> Option<Seq<char>>
    decreases name.len(),
{
    if name.len() <= 1 {
        None
    } else if name.last() == '.' {
        Some(Seq::<char>::empty())
    } else {
        match ext_of(name.drop_last()) {
            None => None,
            Some(e) => Some(e + seq![name.last()]),
        }
    }
}

/// The stem of a file name: everything before the dot that starts the
/// extension, or the whole name when it has no extension.
pub open spec fn stem_of(name: Seq<char>) -> Seq<char> {
    match ext_of(name) {
        None => name,
        Some(e) => name.take(name.len() - e.len() - 1),
    }
}

/// A suffix of `p` free of separators and preceded by one (or by the start)
/// is the basename.
proof fn lemma_basename_suffix(p: Seq<char>, k: int)
    requires
        0 <= k <= p.len(),
        forall|j: int| k <= j < p.len() ==> p[j] != '/',
        k > 0 ==> p[k - 1] == '/',
    ensures
        basename_of(p) == p.subrange(k, p.len() as int),
    decreases p.len(),
{
    if k == p.len() {
        if p.len() > 0 {
            assert(p.last() == '/');
        }
        assert(basename_of(p) =~= p.subrange(k, p.len() as int));
    } else {
        assert(p.last() != '/');
        lemma_basename_suffix(p.drop_last(), k);
        assert(basename_of(p) =~= p.subrange(k, p.len() as int));
    }
}

/// A name whose positions from 1 on hold no dot has no extension.
proof fn lemma_ext_none(name: Seq<char>)
    requires
        forall|j: int| 1 <= j < name.len() ==> name[j] != '.',
    ensures
        ext_of(name) is None,
    decreases name.len(),
{
    if name.len() > 1 {
        lemma_ext_none(name.drop_last());
    }
}

/// A dot at index `d >= 1` with no later dot splits the name into the stem
/// before it and the extension after it.
proof fn lemma_ext_at(name: Seq<char>, d: int)
    requires
        1 <= d < name.len(),
        name[d] == '.',
        forall|j: int| d < j < name.len() ==> name[j] != '.',
    ensures
        ext_of(name) == Some(name.subrange(d + 1, name.len() as int)),
        stem_of(name) == name.take(d),
    decreases name.len(),
{
    if d == name.len() - 1 {
        assert(name.last() == '.');
        assert(name.subrange(d + 1, name.len() as int) =~= Seq::<char>::empty());
    } else {
        assert(name.last() != '.');
        lemma_ext_at(name.drop_last(), d);
        let e = name.drop_last().subrange(d + 1, name.len() - 1);
        assert(e + seq![name.last()] =~= name.subrange(d + 1, name.len() as int));
        assert(name.drop_last().take(d) =~= name.take(d));
    }
}

/// The number of characters `dec_digits` uses for values below ten thousand.
proof fn lemma_dec_digits_len(n: nat)
    ensures
        n < 10 ==> dec_digits(n).len() == 1,
        10 <= n < 100 ==> dec_digits(n).len() == 2,
        100 <= n < 1000 ==> dec_digits(n).len() == 3,
        1000 <= n < 10000 ==> dec_digits(n).len() == 4,
    decreases n,
{
    if n >= 10 {
        lemma_dec_digits_len(n / 10);
        if n < 100 {
            assert(1 <= n / 10 < 10) by (nonlinear_arith)
                requires 10 <= n < 100;
        } else if n < 1000 {
            assert(10 <= n / 10 < 100) by (nonlinear_arith)
                requires 100 <= n < 1000;
        } else if n < 10000 {
            assert(100 <= n / 10 < 1000) by (nonlinear_arith)
                requires 1000 <= n < 10000;
        }
    }
}

/// The single-character string for the decimal digit `d`.
pub fn digit_str(d: u64) -> (s: &'static str)
    requires
        d < 10,
    ensures
        s@ == seq![digit_char(d as int)],
{
    proof {
        reveal_strlit("0");
        reveal_strlit("1");
        reveal_strlit("2");
        reveal_strlit("3");
        reveal_strlit("4");
        reveal_strlit("5");
        reveal_strlit("6");
        reveal_strlit("7");
        reveal_strlit("8");
        reveal_strlit("9");
    }
    let s: &'static str = match d {
        0 => "0",
        1 => "1",
        2 => "2",
        3 => "3",
        4 => "4",
        5 => "5",
        6 => "6",
        7 => "7",
        8 => "8",
        _ => "9",
    };
    proof {
        assert(s@ =~= seq![digit_char(d as int)]);
    }
    s
}

/// Renders `n` in decimal, without sign or padding.
pub fn decimal_string(n: u64) -> (s: String)
    ensures
        s@ == dec_digits(n as nat),
    decreases n,
{
    if n < 10 {
        digit_str(n).to_owned()
    } else {
        let mut s = decimal_string(n / 10);
        s.append(digit_str(n % 10));
        s
    }
}

/// Renders `m` in decimal, left-padded with zeros to `width` characters.
pub fn padded_decimal_string(m: u64, width: u64) -> (s: String)
    requires
        width == 2 || width == 3,
        m < 10000,
    ensures
        s@ == padded_decimal(m as nat, width as nat),
{
    proof {
        lemma_dec_digits_len(m as nat);
        reveal_strlit("0");
    }
    let mut s = String::new();
    if width == 3 && m < 100 {
        s.append("0");
    }
    if m < 10 {
        s.append("0");
    }
    let digits = decimal_string(m);
    s.append(digits.as_str());
    proof {
        assert(s@ =~= padded_decimal(m as nat, width as nat));
    }
    s
}

/// Joins a relative `name` under `base` with a `/` separator.
pub fn join(base: &str, name: &str) -> (r: String)
    ensures
        r@ == join_spec(base@, name@),
{
    let n = base.unicode_len();
    if n == 0 {
        name.to_owned()
    } else {
        let mut s = base.to_owned();
        if base.get_char(n - 1) != '/' {
            s.append("/");
            proof {
                reveal_strlit("/");
                assert(s@ =~= base@ + seq!['/']);
            }
        }
        s.append(name);
        s
    }
}

/// The final path component of `path`: everything after the last `/`.
pub fn basename(path: &str) -> (r: String)
    ensures
        r@ == basename_of(path@),
{
    let n = path.unicode_len();
    let mut k = n;
    let mut found = false;
    while k > 0 && !found
        invariant
            k <= n,
            n == path@.len(),
            forall|j: int| k <= j < n ==> path@[j] != '/',
            found ==> k > 0 && path@[k - 1] == '/',
        decreases k, (if found { 0int } else { 1int }),
    {
        if path.get_char(k - 1) == '/' {
            found = true;
        } else {
            k = k - 1;
        }
    }
    proof {
        lemma_basename_suffix(path@, k as int);
    }
    path.substring_char(k, n).to_owned()
}

/// Splits a file name into its stem and, where one exists, its extension.
pub fn split_extension(name: &str) -> (r: (String, Option<String>))
    ensures
        r.0@ == stem_of(name@),
        match r.1 {
            Some(e) => ext_of(name@) == Some(e@),
            None => ext_of(name@) is None,
        },
{
    let n = name.unicode_len();
    let mut k = n;
    let mut found = false;
    while k > 1 && !found
        invariant
            k <= n,
            n == name@.len(),
            forall|j: int| k <= j < n ==> name@[j] != '.',
            found ==> k > 1 && name@[k - 1] == '.',
        decreases k, (if found { 0int } else { 1int }),
    {
        if name.get_char(k - 1) == '.' {
            found = true;
        } else {
            k = k - 1;
        }
    }
    if found {
        proof {
            lemma_ext_at(name@, k - 1);
        }
        let stem = name.substring_char(0, k - 1).to_owned();
        let ext = name.substring_char(k, n).to_owned();
        proof {
            assert(name@.subrange(0, k - 1) =~= name@.take(k - 1));
        }
        (stem, Some(ext))
    } else {
        proof {
            lemma_ext_none(name@);
        }
        (name.to_owned(), None)
    }
}

/// The stem of the final component of `path`: its basename without the
/// extension.
pub fn file_stem(path: &str) -> (r: String)
    ensures
        r@ == stem_of(basename_of(path@)),
{
    let name = basename(path);
    let (stem, _) = split_extension(name.as_str());
    stem
}

} // verus!
