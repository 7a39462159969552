//! The identifier codec: deriving a URL-safe slug from a file name, and
//! reconstructing a file name from a slug.
//!
//! The two directions are deliberately not inverses of each other.  The
//! forward direction lowers and folds an arbitrary file stem; the
//! backward direction only understands slugs with a leading number and
//! rebuilds the `NNNN_name.md` naming convention.  Stems that follow the
//! convention round-trip; others are listable but not retrievable.

use vstd::prelude::*;
use vstd::utf8::is_ascii_chars;
use crate::errors::Error;
use crate::num::{dec_digits, dec_digits_padded, digit_char, digit_val, digits_val, is_digit, pow10, push_decimal_padded4};

verus! {

/// One step of slug building over an ASCII character: keep lower-case
/// letters and digits, lower upper-case letters, and turn any run of
/// other characters into a single hyphen.  The boolean tracks whether the
/// last written character was a hyphen (initially true, so that no slug
/// starts with one).
pub open spec fn slug_push(acc: Seq<char>, prev_dash: bool, c: char) -> (Seq<char>, bool) {
    let u = c as u32;
    if (97 <= u <= 122) || (48 <= u <= 57) {
        (acc.push(c), false)
    } else if 65 <= u <= 90 {
        (acc.push(((u + 32) as u8) as char), false)
    } else {
        if !prev_dash {
            (acc.push('-'), true)
        } else {
            (acc, prev_dash)
        }
    }
}

/// Slug building folded over a whole ASCII string.
pub open spec fn slug_fold(s: Seq<char>) -> (Seq<char>, bool)
    decreases s.len(),
{
    if s.len() == 0 {
        (Seq::empty(), true)
    } else {
        let (acc, prev) = slug_fold(s.drop_last());
        slug_push(acc, prev, s.last())
    }
}

/// The slug of an ASCII string: the fold above, with a trailing hyphen
/// removed.
pub open spec fn slug_ascii(s: Seq<char>) -> Seq<char> {
    let (acc, _) = slug_fold(s);
    if acc.len() > 0 && acc.last() == '-' {
        acc.drop_last()
    } else {
        acc
    }
}

/// The slug of an arbitrary string.  On non-ASCII characters the
/// transform goes through a transliteration table pages long, so the
/// result is named rather than spelled out; on ASCII strings it is
/// exactly [`slug_ascii`].
pub uninterp spec fn slug_of(s: Seq<char>) -> Seq<char>;

/// Relies on slug::slugify: lowers and ASCII-folds a string, turns each
/// run of other characters into one hyphen, and trims hyphens at both
/// ends.  ASCII characters pass one by one through the fold that
/// `slug_ascii` states; the result depends on the characters alone.
#[verifier::external_body]
pub(crate) fn slugify(s: &str) -> (r: String)
    ensures
        r@ == slug_of(s@),
        is_ascii_chars(s@) ==> r@ == slug_ascii(s@),
{
    slug::slugify(s)
}

/// Where the leading number of a slug ends: at its first hyphen, or at
/// its end.
pub open spec fn num_end(s: Seq<char>, i: int) -> int
    decreases s.len() - i,
        when 0 <= i <= s.len()
{
    if i >= s.len() {
        i
    } else if s[i] == '-' {
        i
    } else {
        num_end(s, i + 1)
    }
}

/// The digit run of would-be `u32` text: the text with an optional
/// leading plus removed.
pub open spec fn u32_digits_of(t: Seq<char>) -> Seq<char> {
    if t.len() > 0 && t[0] == '+' {
        t.drop_first()
    } else {
        t
    }
}

/// Text that `u32` parsing accepts: an optional leading plus, then at
/// least one decimal digit, with a value that fits.
pub open spec fn is_u32_text(t: Seq<char>) -> bool {
    &&& u32_digits_of(t).len() >= 1
    &&& (forall|i: int| 0 <= i < u32_digits_of(t).len() ==> is_digit(u32_digits_of(t)[i]))
    &&& digits_val(u32_digits_of(t)) <= u32::MAX
}

/// The value of such text.
pub open spec fn u32_text_val(t: Seq<char>) -> int {
    digits_val(u32_digits_of(t))
}

/// Whether a slug resolves to a file name: its leading hyphen-delimited
/// prefix must parse as a `u32`.
pub open spec fn slug_resolves(s: Seq<char>) -> bool {
    is_u32_text(s.subrange(0, num_end(s, 0)))
}

/// The file name a slug resolves to: the number, zero-padded to four
/// digits, an underscore, the rest of the slug with hyphens replaced by
/// underscores, and the `.md` extension.
pub open spec fn file_name_of_slug(s: Seq<char>) -> Seq<char> {
    let e = num_end(s, 0);
    let rest = if e < s.len() {
        s.subrange(e + 1, s.len() as int)
    } else {
        Seq::empty()
    };
    dec_digits_padded(u32_text_val(s.subrange(0, e)), 4) + seq!['_'] + rest.map_values(
        |c: char|
            if c == '-' {
                '_'
            } else {
                c
            },
    ) + ".md"@
}

/// Every digit sequence has a non-negative value.
proof fn lemma_digits_val_nonneg(t: Seq<char>)
    requires
        forall|i: int| 0 <= i < t.len() ==> is_digit(t[i]),
    ensures
        digits_val(t) >= 0,
    decreases t.len(),
{
    if t.len() > 0 {
        lemma_digits_val_nonneg(t.drop_last());
    }
}

/// A digit sequence is worth at least any of its prefixes.
proof fn lemma_digits_val_prefix(t: Seq<char>, i: int)
    requires
        0 <= i <= t.len(),
        forall|j: int| 0 <= j < t.len() ==> is_digit(t[j]),
    ensures
        digits_val(t) >= digits_val(t.subrange(0, i)),
    decreases t.len() - i,
{
    if i < t.len() {
        lemma_digits_val_prefix(t, i + 1);
        let p = t.subrange(0, i + 1);
        assert(p.drop_last() =~= t.subrange(0, i));
        assert(p.last() == t[i]);
        lemma_digits_val_nonneg(p.drop_last());
        assert(digits_val(p) == digits_val(t.subrange(0, i)) * 10 + digit_val(t[i]));
        assert(is_digit(t[i]));
        assert(digit_val(t[i]) >= 0);
    } else {
        assert(t.subrange(0, i) =~= t);
    }
}


/// Lower-case letters, digits and underscores: the characters of a file
/// stem that follows the naming convention.
pub open spec fn stem_char(c: char) -> bool {
    (97 <= c as u32 <= 122) || (48 <= c as u32 <= 57) || c == '_'
}

/// A file stem that follows the naming convention and round-trips
/// through the identifier codec: four digits, an underscore, then
/// lower-case letters, digits and single underscores, not ending in an
/// underscore.
pub open spec fn conventional_stem(stem: Seq<char>) -> bool {
    &&& stem.len() >= 6
    &&& (forall|i: int| 0 <= i < 4 ==> is_digit(#[trigger] stem[i]))
    &&& stem[4] == '_'
    &&& (forall|i: int| 4 <= i < stem.len() ==> stem_char(#[trigger] stem[i]))
    &&& stem.last() != '_'
    &&& (forall|i: int| 4 <= i < stem.len() - 1 ==> !(#[trigger] stem[i] == '_' && stem[i + 1]
        == '_'))
}

/// The slug of a conventional stem: each underscore becomes a hyphen.
pub open spec fn dash_map(s: Seq<char>) -> Seq<char> {
    s.map_values(
        |c: char|
            if c == '_' {
                '-'
            } else {
                c
            },
    )
}

/// On a prefix of a conventional stem, the slug fold replaces each
/// underscore with a hyphen and changes nothing else.
proof fn lemma_slug_fold_conventional(s: Seq<char>)
    requires
        s.len() >= 1,
        is_digit(s[0]),
        forall|i: int| 0 <= i < s.len() ==> stem_char(#[trigger] s[i]),
        forall|i: int| 0 <= i < s.len() - 1 ==> !(#[trigger] s[i] == '_' && s[i + 1] == '_'),
    ensures
        slug_fold(s) == (dash_map(s), s.last() == '_'),
    decreases s.len(),
{
    let p = s.drop_last();
    let c = s.last();
    if s.len() == 1 {
        assert(dash_map(s) =~= seq![c]);
        assert(slug_fold(p) == (Seq::<char>::empty(), true));
    } else {
        lemma_slug_fold_conventional(p);
        assert(p.last() == s[s.len() - 2]);
        if c == '_' {
            assert(s[s.len() - 2] != '_');
            assert(dash_map(s) =~= dash_map(p).push('-'));
        } else {
            assert(dash_map(s) =~= dash_map(p).push(c));
        }
    }
}

/// Every character of `dec_digits` is a decimal digit.
proof fn lemma_dec_digits_are_digits(n: int)
    requires
        n >= 0,
    ensures
        forall|i: int| 0 <= i < dec_digits(n).len() ==> is_digit(#[trigger] dec_digits(n)[i]),
    decreases n,
{
    if n < 10 {
        assert(is_digit(digit_char(n)));
    } else {
        lemma_dec_digits_are_digits(n / 10);
        assert(is_digit(digit_char(n % 10)));
        assert(forall|i: int|
            0 <= i < dec_digits(n).len() - 1 ==> #[trigger] dec_digits(n)[i] == dec_digits(
                n / 10,
            )[i]);
    }
}

/// `dec_digits` renders exactly its number.
proof fn lemma_dec_digits_val(n: int)
    requires
        n >= 0,
    ensures
        digits_val(dec_digits(n)) == n,
    decreases n,
{
    if n < 10 {
        let d = dec_digits(n);
        assert(d.drop_last() =~= Seq::<char>::empty());
        assert(digits_val(Seq::<char>::empty()) == 0);
        assert(d.last() == digit_char(n));
        assert(digit_val(digit_char(n)) == n);
    } else {
        lemma_dec_digits_val(n / 10);
        assert(dec_digits(n).drop_last() =~= dec_digits(n / 10));
        assert(digit_val(digit_char(n % 10)) == n % 10);
    }
}

/// A zero in front does not change a number's value.
proof fn lemma_digits_val_zero_front(t: Seq<char>)
    ensures
        digits_val(seq!['0'] + t) == digits_val(t),
    decreases t.len(),
{
    if t.len() == 0 {
        assert(seq!['0'] + t =~= seq!['0']);
        let z = seq!['0'];
        assert(z.drop_last() =~= Seq::<char>::empty());
        assert(digits_val(Seq::<char>::empty()) == 0);
        assert(z.last() == '0');
        assert(digits_val(z) == digit_val('0'));
        assert(digit_val('0') == 0);
    } else {
        lemma_digits_val_zero_front(t.drop_last());
        assert((seq!['0'] + t).drop_last() =~= seq!['0'] + t.drop_last());
        assert((seq!['0'] + t).last() == t.last());
    }
}

/// Padding keeps the value, keeps the digits digits, and fixes the
/// width.
proof fn lemma_padded_props(n: int, w: int)
    requires
        0 <= n < pow10(w),
        w >= 1,
    ensures
        digits_val(dec_digits_padded(n, w)) == n,
        dec_digits_padded(n, w).len() == w,
        forall|i: int|
            0 <= i < w ==> is_digit(#[trigger] dec_digits_padded(n, w)[i]),
    decreases w,
{
    crate::num::lemma_dec_digits_len(n, w);
    lemma_dec_digits_are_digits(n);
    lemma_dec_digits_val(n);
    if dec_digits(n).len() >= w {
    } else {
        crate::num::lemma_pow10_pos(w - 1);
        if w == 1 {
        } else {
            assert(pow10(w) == 10 * pow10(w - 1));
            lemma_digits_val_ub(dec_digits(n));
            crate::num::lemma_pow10_mono(dec_digits(n).len() as int, w - 1);
            lemma_padded_props(n, w - 1);
            lemma_digits_val_zero_front(dec_digits_padded(n, w - 1));
            assert(is_digit('0'));
            assert(forall|i: int|
                1 <= i < w ==> #[trigger] dec_digits_padded(n, w)[i] == dec_digits_padded(
                    n,
                    w - 1,
                )[i - 1]);
            assert(dec_digits_padded(n, w)[0] == '0');
        }
    }
}

/// A run of digits is worth less than ten to its length.
proof fn lemma_digits_val_ub(t: Seq<char>)
    requires
        forall|i: int| 0 <= i < t.len() ==> is_digit(#[trigger] t[i]),
    ensures
        0 <= digits_val(t) < pow10(t.len() as int),
    decreases t.len(),
{
    if t.len() == 0 {
    } else {
        lemma_digits_val_ub(t.drop_last());
        assert(digit_val(t.last()) <= 9);
        assert(pow10(t.len() as int) == 10 * pow10(t.len() - 1));
    }
}

/// On runs of digits of one length, the value decides the digits.
proof fn lemma_digits_val_inj(a: Seq<char>, b: Seq<char>)
    requires
        a.len() == b.len(),
        forall|i: int| 0 <= i < a.len() ==> is_digit(#[trigger] a[i]),
        forall|i: int| 0 <= i < b.len() ==> is_digit(#[trigger] b[i]),
        digits_val(a) == digits_val(b),
    ensures
        a == b,
    decreases a.len(),
{
    if a.len() == 0 {
        assert(a =~= b);
    } else {
        lemma_digits_val_nonneg(a.drop_last());
        lemma_digits_val_nonneg(b.drop_last());
        assert(is_digit(a.last()) && is_digit(b.last()));
        assert(0 <= digit_val(a.last()) <= 9);
        assert(0 <= digit_val(b.last()) <= 9);
        assert(digits_val(a) == digits_val(a.drop_last()) * 10 + digit_val(a.last()));
        assert(digits_val(b) == digits_val(b.drop_last()) * 10 + digit_val(b.last()));
        assert(digit_val(a.last()) == digit_val(b.last()) && digits_val(a.drop_last())
            == digits_val(b.drop_last()));
        assert(a.last() as u32 == b.last() as u32);
        vstd::utf8::char_u32_cast(a.last(), a.last() as u32);
        vstd::utf8::char_u32_cast(b.last(), b.last() as u32);
        assert(a.last() == b.last());
        assert(forall|i: int|
            0 <= i < a.drop_last().len() ==> is_digit(#[trigger] a.drop_last()[i]));
        assert(forall|i: int|
            0 <= i < b.drop_last().len() ==> is_digit(#[trigger] b.drop_last()[i]));
        lemma_digits_val_inj(a.drop_last(), b.drop_last());
        assert forall|i: int| 0 <= i < a.len() implies a[i] == b[i] by {
            if i < a.len() - 1 {
                assert(a[i] == a.drop_last()[i]);
                assert(b[i] == b.drop_last()[i]);
            } else {
                assert(a[i] == a.last());
                assert(b[i] == b.last());
            }
        }
        assert(a =~= b);
    }
}

/// Round trip of the identifier codec: the slug that listing derives
/// from a conventional file stem resolves, and it resolves back to that
/// very stem with its `.md` extension.
pub proof fn lemma_slug_round_trip(stem: Seq<char>)
    requires
        conventional_stem(stem),
    ensures
        slug_resolves(slug_ascii(stem)),
        file_name_of_slug(slug_ascii(stem)) == stem + ".md"@,
{
    lemma_slug_fold_conventional(stem);
    let slug = slug_ascii(stem);
    assert(slug == dash_map(stem)) by {
        assert(dash_map(stem).last() == stem.last());
        assert(stem.last() != '_');
        assert(dash_map(stem).last() != '-') by {
            assert(stem_char(stem.last()));
        }
    }
    assert(slug.len() == stem.len());
    // The leading number ends exactly at the underscore's hyphen.
    assert(slug[4] == '-');
    assert(forall|i: int| 0 <= i < 4 ==> #[trigger] slug[i] == stem[i]);
    assert(num_end(slug, 0) == 4) by {
        assert(forall|i: int| 0 <= i < 4 ==> #[trigger] slug[i] != '-') by {
            assert(forall|i: int| 0 <= i < 4 ==> is_digit(#[trigger] stem[i]));
        }
        assert(num_end(slug, 4) == 4);
        assert(num_end(slug, 3) == 4);
        assert(num_end(slug, 2) == 4);
        assert(num_end(slug, 1) == 4);
    }
    let part = slug.subrange(0, 4);
    assert(forall|i: int| 0 <= i < 4 ==> #[trigger] part[i] == stem[i]);
    assert(part[0] != '+');
    assert(u32_digits_of(part) == part);
    lemma_digits_val_ub(part);
    assert(pow10(4) == 10000) by {
        assert(pow10(0) == 1);
        assert(pow10(1) == 10);
        assert(pow10(2) == 100);
        assert(pow10(3) == 1000);
    }
    assert(is_u32_text(part));
    assert(slug_resolves(slug));
    // The number formats back to the very same four digits.
    let v = digits_val(part);
    lemma_padded_props(v, 4);
    lemma_digits_val_inj(dec_digits_padded(v, 4), part);
    // The rest of the slug maps back to the rest of the stem.
    let rest = slug.subrange(5, slug.len() as int);
    let back = rest.map_values(
        |c: char|
            if c == '-' {
                '_'
            } else {
                c
            },
    );
    assert(back =~= stem.subrange(5, stem.len() as int)) by {
        assert(forall|j: int|
            0 <= j < back.len() ==> #[trigger] back[j] == stem[j + 5]) by {
            assert(forall|j: int|
                0 <= j < rest.len() ==> #[trigger] rest[j] == dash_map(stem)[j + 5]);
            assert(forall|j: int| 5 <= j < stem.len() ==> stem_char(#[trigger] stem[j]));
        }
    }
    assert(file_name_of_slug(slug) =~= stem + ".md"@) by {
        assert(stem =~= stem.subrange(0, 4) + seq!['_'] + stem.subrange(5, stem.len() as int));
        assert(part =~= stem.subrange(0, 4));
    }
}

/// Rebuild the stored file name that a slug names.  A slug whose leading
/// hyphen-delimited prefix is not a number does not resolve: that is a
/// lookup miss, never a panic.
pub fn filename_for_slug(slug: &str) -> (r: Result<String, Error>)
    ensures
        match r {
            Ok(name) => slug_resolves(slug@) && name@ == file_name_of_slug(slug@),
            Err(e) => !slug_resolves(slug@) && (e matches Error::NotFound {
                slug: es,
                error: _,
            } && es@ == slug@),
        },
{
    let n = slug.unicode_len();
    // Find where the leading number ends: the first hyphen, or the end.
    let mut e: usize = 0;
    while e < n && slug.get_char(e) != '-'
        invariant
            0 <= e <= n,
            n == slug@.len(),
            num_end(slug@, e as int) == num_end(slug@, 0),
            forall|j: int| 0 <= j < e ==> slug@[j] != '-',
        decreases n - e,
    {
        e = e + 1;
    }
    proof {
        assert(num_end(slug@, 0) == e as int);
    }
    let ghost part = slug@.subrange(0, e as int);
    // Parse the number, exactly as `u32` parsing would: an optional
    // leading plus, then at least one digit, and no overflow.
    let mut i: usize = 0;
    if e > 0 && slug.get_char(0) == '+' {
        i = 1;
    }
    let ghost digits = u32_digits_of(part);
    proof {
        if e > 0 {
            assert(part[0] == slug@[0]);
        }
        assert(digits =~= slug@.subrange(i as int, e as int));
    }
    if i == e {
        return Err(
            Error::NotFound {
                slug: String::from_str(slug),
                error: String::from_str("the slug does not begin with a number"),
            },
        );
    }
    let mut value: u64 = 0;
    let mut k: usize = i;
    while k < e
        invariant
            i <= k <= e <= n,
            n == slug@.len(),
            num_end(slug@, 0) == e as int,
            part == slug@.subrange(0, e as int),
            digits == u32_digits_of(part),
            digits =~= slug@.subrange(i as int, e as int),
            forall|j: int| i <= j < k ==> is_digit(slug@[j]),
            value == digits_val(slug@.subrange(i as int, k as int)),
            value <= u32::MAX,
        decreases e - k,
    {
        let c = slug.get_char(k);
        let u = c as u32;
        if !(48 <= u && u <= 57) {
            proof {
                assert(!is_digit(slug@[k as int]));
                assert(digits == u32_digits_of(part));
                assert(0 <= k - i < digits.len());
                assert(digits[k - i] == slug@.subrange(i as int, e as int)[k - i]);
                assert(slug@.subrange(i as int, e as int)[k - i] == slug@[k as int]);
                assert(!is_digit(u32_digits_of(part)[k - i]));
                assert(!is_u32_text(part));
            }
            return Err(
                Error::NotFound {
                    slug: String::from_str(slug),
                    error: String::from_str("the slug does not begin with a number"),
                },
            );
        }
        let d: u64 = (u - 48) as u64;
        let next: u64 = value * 10 + d;
        proof {
            let q = slug@.subrange(i as int, k as int + 1);
            assert(q.drop_last() =~= slug@.subrange(i as int, k as int));
            assert(q.last() == slug@[k as int]);
        }
        if next > u32::MAX as u64 {
            proof {
                let pre = slug@.subrange(i as int, k as int + 1);
                assert(digits_val(pre) == next);
                assert(pre =~= digits.subrange(0, (k + 1 - i) as int));
                if forall|j: int| 0 <= j < digits.len() ==> is_digit(digits[j]) {
                    lemma_digits_val_prefix(digits, (k + 1 - i) as int);
                    assert(digits_val(digits) >= next > u32::MAX);
                }
                assert(!is_u32_text(part));
            }
            return Err(
                Error::NotFound {
                    slug: String::from_str(slug),
                    error: String::from_str("the number at the head of the slug is too large"),
                },
            );
        }
        value = next;
        k = k + 1;
    }
    proof {
        assert(slug@.subrange(i as int, e as int) =~= digits);
        assert(is_u32_text(part));
        assert(u32_text_val(part) == value);
    }
    // Rebuild the file name: the number padded to four digits, an
    // underscore, the rest with hyphens turned into underscores, `.md`.
    let mut name = String::new();
    push_decimal_padded4(&mut name, value as u32);
    name.append("_");
    let ghost rest = if (e as int) < slug@.len() {
        slug@.subrange(e as int + 1, slug@.len() as int)
    } else {
        Seq::<char>::empty()
    };
    let ghost mapped = rest.map_values(
        |c: char|
            if c == '-' {
                '_'
            } else {
                c
            },
    );
    let mut p: usize = if e < n {
        e + 1
    } else {
        e
    };
    let ghost rest_base = p as int;
    proof {
        assert(mapped.subrange(0, 0) =~= Seq::<char>::empty());
    }
    while p < n
        invariant
            rest_base <= p <= n,
            n == slug@.len(),
            rest_base == if num_end(slug@, 0) < n {
                num_end(slug@, 0) + 1
            } else {
                num_end(slug@, 0) as int
            },
            num_end(slug@, 0) == e,
            e <= n,
            rest =~= if (e as int) < slug@.len() {
                slug@.subrange(e as int + 1, slug@.len() as int)
            } else {
                Seq::<char>::empty()
            },
            mapped == rest.map_values(
                |c: char|
                    if c == '-' {
                        '_'
                    } else {
                        c
                    },
            ),
            name@ == dec_digits_padded(value as int, 4) + "_"@ + mapped.subrange(
                0,
                p - rest_base,
            ),
        decreases n - p,
    {
        let c = slug.get_char(p);
        if c == '-' {
            name.append("_");
        } else {
            let piece = slug.substring_char(p, p + 1);
            name.append(piece);
            proof {
                assert(piece@ =~= seq![slug@[p as int]]);
            }
        }
        proof {
            assert(mapped[p - rest_base] == if slug@[p as int] == '-' {
                '_'
            } else {
                slug@[p as int]
            });
            assert(mapped.subrange(0, p + 1 - rest_base) =~= mapped.subrange(0, p - rest_base)
                + seq![mapped[p - rest_base]]);
            reveal_strlit("_");
            assert("_"@ =~= seq!['_']);
        }
        p = p + 1;
    }
    name.append(".md");
    proof {
        reveal_strlit("_");
        assert("_"@ =~= seq!['_']);
        assert(mapped.subrange(0, (n - rest_base) as int) =~= mapped);
        assert(name@ =~= file_name_of_slug(slug@));
    }
    Ok(name)
}

} // verus!
