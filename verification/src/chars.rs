//! Character classes and sequence utilities shared by the grammar
//! recognisers: splitting on a separator, trimming whitespace, and the
//! lemmas that connect the executable loops to their specifications.

use vstd::prelude::*;

verus! {

// ---------------------------------------------------------------------------
// Character classes
// ---------------------------------------------------------------------------

pub open spec fn is_digit(c: char) -> bool {
    '0' as u32 <= c as u32 && c as u32 <= '9' as u32
}

pub open spec fn is_hex_digit(c: char) -> bool {
    is_digit(c)
        || ('a' as u32 <= c as u32 && c as u32 <= 'f' as u32)
        || ('A' as u32 <= c as u32 && c as u32 <= 'F' as u32)
}

/// Characters allowed in a zone index: ASCII letters and digits.
pub open spec fn is_zone_char(c: char) -> bool {
    is_digit(c)
        || ('a' as u32 <= c as u32 && c as u32 <= 'z' as u32)
        || ('A' as u32 <= c as u32 && c as u32 <= 'Z' as u32)
}

/// The whitespace characters removed by trimming (the Unicode
/// `White_Space` set).
pub open spec fn is_space(c: char) -> bool {
    ||| ('\u{0009}' as u32 <= c as u32 && c as u32 <= '\u{000D}' as u32)
    ||| c == ' '
    ||| c == '\u{0085}'
    ||| c == '\u{00A0}'
    ||| c == '\u{1680}'
    ||| ('\u{2000}' as u32 <= c as u32 && c as u32 <= '\u{200A}' as u32)
    ||| c == '\u{2028}'
    ||| c == '\u{2029}'
    ||| c == '\u{202F}'
    ||| c == '\u{205F}'
    ||| c == '\u{3000}'
}

pub fn digit(c: char) -> (r: bool)
    ensures
        r == is_digit(c),
{
    '0' as u32 <= c as u32 && c as u32 <= '9' as u32
}

pub fn hex_digit(c: char) -> (r: bool)
    ensures
        r == is_hex_digit(c),
{
    digit(c)
        || ('a' as u32 <= c as u32 && c as u32 <= 'f' as u32)
        || ('A' as u32 <= c as u32 && c as u32 <= 'F' as u32)
}

pub fn zone_char(c: char) -> (r: bool)
    ensures
        r == is_zone_char(c),
{
    digit(c)
        || ('a' as u32 <= c as u32 && c as u32 <= 'z' as u32)
        || ('A' as u32 <= c as u32 && c as u32 <= 'Z' as u32)
}

pub fn space(c: char) -> (r: bool)
    ensures
        r == is_space(c),
{
    let u = c as u32;
    (0x9 <= u && u <= 0xD) || u == 0x20 || u == 0x85 || u == 0xA0 || u == 0x1680
        || (0x2000 <= u && u <= 0x200A) || u == 0x2028 || u == 0x2029 || u == 0x202F
        || u == 0x205F || u == 0x3000
}

// ---------------------------------------------------------------------------
// Conversion between strings and character vectors
// ---------------------------------------------------------------------------

/// Copies the characters of a string into a vector, so that the grammar
/// recognisers can index them freely.
pub fn to_chars(s: &str) -> (v: Vec<char>)
    ensures
        v@ == s@,
{
    let n = s.unicode_len();
    let mut v: Vec<char> = Vec::new();
    let mut i: usize = 0;
    while i < n
        invariant
            i <= n,
            n == s@.len(),
            v@ == s@.subrange(0, i as int),
        decreases n - i,
    {
        let c = s.get_char(i);
        v.push(c);
        i = i + 1;
        proof {
            assert(v@ =~= s@.subrange(0, i as int));
        }
    }
    proof {
        assert(v@ =~= s@);
    }
    v
}

/// Copies `v[from..to]` into a fresh vector.
pub fn subvec(v: &Vec<char>, from: usize, to: usize) -> (r: Vec<char>)
    requires
        from <= to <= v@.len(),
    ensures
        r@ == v@.subrange(from as int, to as int),
{
    let mut r: Vec<char> = Vec::new();
    let mut i: usize = from;
    while i < to
        invariant
            from <= i <= to <= v@.len(),
            r@ == v@.subrange(from as int, i as int),
        decreases to - i,
    {
        r.push(v[i]);
        i = i + 1;
        proof {
            assert(r@ =~= v@.subrange(from as int, i as int));
        }
    }
    r
}

// ---------------------------------------------------------------------------
// First occurrence of a character
// ---------------------------------------------------------------------------

/// Index of the first occurrence of `c` in `s`, or `-1` when absent.
pub open spec fn first_index_of(s: Seq<char>, c: char) -> int
    decreases s.len(),
{
    if s.len() == 0 {
        -1
    } else if s[0] == c {
        0
    } else {
        let r = first_index_of(s.subrange(1, s.len() as int), c);
        if r < 0 {
            -1
        } else {
            r + 1
        }
    }
}

pub proof fn lemma_first_index_of(s: Seq<char>, c: char)
    ensures
        first_index_of(s, c) == -1 ==> forall|j: int| 0 <= j < s.len() ==> s[j] != c,
        first_index_of(s, c) != -1 ==> {
            let f = first_index_of(s, c);
            &&& 0 <= f < s.len()
            &&& s[f] == c
            &&& forall|j: int| 0 <= j < f ==> s[j] != c
        },
    decreases s.len(),
{
    if s.len() == 0 {
    } else if s[0] == c {
    } else {
        let t = s.subrange(1, s.len() as int);
        lemma_first_index_of(t, c);
        assert(forall|j: int| 1 <= j < s.len() ==> s[j] == t[j - 1]);
    }
}

/// The first occurrence is pinned by a witness.
pub proof fn lemma_first_index_witness(s: Seq<char>, c: char, i: int)
    requires
        0 <= i < s.len(),
        s[i] == c,
        forall|j: int| 0 <= j < i ==> s[j] != c,
    ensures
        first_index_of(s, c) == i,
{
    lemma_first_index_of(s, c);
    let f = first_index_of(s, c);
    if f == -1 {
        assert(s[i] != c);
    } else if f < i {
        assert(s[f] != c);
    } else if f > i {
        assert(s[i] != c);
    }
}

/// Finds the first occurrence of `c` in `v`, as an option.
pub fn find_first(v: &Vec<char>, c: char) -> (r: Option<usize>)
    ensures
        match r {
            Some(i) => i < v@.len() && first_index_of(v@, c) == i as int,
            None => first_index_of(v@, c) == -1,
        },
{
    let mut i: usize = 0;
    while i < v.len()
        invariant
            i <= v@.len(),
            forall|j: int| 0 <= j < i ==> v@[j] != c,
        decreases v@.len() - i,
    {
        if v[i] == c {
            proof {
                lemma_first_index_witness(v@, c, i as int);
            }
            return Some(i);
        }
        i = i + 1;
    }
    proof {
        lemma_first_index_of(v@, c);
        if first_index_of(v@, c) != -1 {
            let f = first_index_of(v@, c);
            assert(v@[f] != c);
        }
    }
    None
}

// ---------------------------------------------------------------------------
// Splitting on a separator
// ---------------------------------------------------------------------------

/// Splits `s` on every occurrence of `sep`; `n` separators yield `n + 1`
/// groups, empty groups included.
pub open spec fn split_on(s: Seq<char>, sep: char) -> Seq<Seq<char>>
    decreases s.len(),
{
    let f = first_index_of(s, sep);
    if 0 <= f < s.len() {
        seq![s.subrange(0, f)] + split_on(s.subrange(f + 1, s.len() as int), sep)
    } else {
        seq![s]
    }
}

/// A sequence without the separator is a single group.
pub proof fn lemma_split_whole(s: Seq<char>, sep: char)
    requires
        forall|j: int| 0 <= j < s.len() ==> s[j] != sep,
    ensures
        split_on(s, sep) == seq![s],
{
    lemma_first_index_of(s, sep);
    let f = first_index_of(s, sep);
    if f != -1 {
        assert(s[f] == sep);
    }
}

/// Peeling the group before the first separator.
pub proof fn lemma_split_prefix(s: Seq<char>, sep: char, i: int)
    requires
        0 <= i < s.len(),
        s[i] == sep,
        forall|j: int| 0 <= j < i ==> s[j] != sep,
    ensures
        split_on(s, sep) == seq![s.subrange(0, i)] + split_on(
            s.subrange(i + 1, s.len() as int),
            sep,
        ),
{
    lemma_first_index_witness(s, sep, i);
}

/// A character different from the separator and absent from every group
/// is absent from the split sequence itself.
pub proof fn lemma_split_chars(s: Seq<char>, sep: char, c: char)
    requires
        c != sep,
        forall|g: Seq<char>| split_on(s, sep).contains(g) ==> !g.contains(c),
    ensures
        !s.contains(c),
    decreases s.len(),
{
    lemma_first_index_of(s, sep);
    let f = first_index_of(s, sep);
    if f < 0 {
        assert(split_on(s, sep)[0] == s);
        assert(split_on(s, sep).contains(s));
        if s.contains(c) {
            assert(!s.contains(c));
        }
    } else {
        let head = s.subrange(0, f);
        let tail = s.subrange(f + 1, s.len() as int);
        assert(split_on(s, sep) == seq![head] + split_on(tail, sep));
        assert(split_on(s, sep)[0] == head);
        assert(split_on(s, sep).contains(head));
        assert(forall|g: Seq<char>|
            split_on(tail, sep).contains(g) ==> #[trigger] split_on(s, sep).contains(g)) by {
            assert(forall|k: int|
                0 <= k < split_on(tail, sep).len() ==> split_on(s, sep)[k + 1] == #[trigger] split_on(
                    tail,
                    sep,
                )[k]);
        }
        lemma_split_chars(tail, sep, c);
        if s.contains(c) {
            let j = choose|j: int| 0 <= j < s.len() && s[j] == c;
            if j < f {
                assert(head[j] == c);
                assert(head.contains(c));
            } else if j == f {
            } else {
                assert(tail[j - f - 1] == c);
                assert(tail.contains(c));
            }
        }
    }
}

/// Splits a character vector on `sep`, mirroring [`split_on`].
pub fn split_chars(v: &Vec<char>, sep: char) -> (parts: Vec<Vec<char>>)
    ensures
        parts@.map_values(|p: Vec<char>| p@) == split_on(v@, sep),
        parts@.len() >= 1,
{
    let mut parts: Vec<Vec<char>> = Vec::new();
    let mut start: usize = 0;
    let mut i: usize = 0;
    proof {
        assert(v@.subrange(0, v@.len() as int) =~= v@);
        assert(parts@.map_values(|p: Vec<char>| p@) =~= Seq::<Seq<char>>::empty());
        assert(split_on(v@, sep) =~= parts@.map_values(|p: Vec<char>| p@) + split_on(
            v@.subrange(0, v@.len() as int),
            sep,
        ));
    }
    while i < v.len()
        invariant
            start <= i <= v@.len(),
            forall|j: int| start <= j < i ==> v@[j] != sep,
            split_on(v@, sep) == parts@.map_values(|p: Vec<char>| p@) + split_on(
                v@.subrange(start as int, v@.len() as int),
                sep,
            ),
        decreases v@.len() - i,
    {
        if v[i] == sep {
            let g = subvec(v, start, i);
            let ghost rest = v@.subrange(start as int, v@.len() as int);
            proof {
                assert(forall|j: int| 0 <= j < i - start ==> rest[j] != sep);
                assert(rest[i - start] == sep);
                lemma_split_prefix(rest, sep, i as int - start as int);
                assert(rest.subrange(0, i - start) =~= v@.subrange(start as int, i as int));
                assert(rest.subrange(i - start + 1, rest.len() as int) =~= v@.subrange(
                    i as int + 1,
                    v@.len() as int,
                ));
            }
            parts.push(g);
            proof {
                assert(parts@.map_values(|p: Vec<char>| p@) =~= parts@.subrange(
                    0,
                    parts@.len() - 1,
                ).map_values(|p: Vec<char>| p@).push(v@.subrange(start as int, i as int)));
                assert(split_on(v@, sep) =~= parts@.map_values(|p: Vec<char>| p@) + split_on(
                    v@.subrange(i as int + 1, v@.len() as int),
                    sep,
                ));
            }
            start = i + 1;
        }
        i = i + 1;
    }
    let g = subvec(v, start, v.len());
    let ghost rest = v@.subrange(start as int, v@.len() as int);
    proof {
        assert(forall|j: int| 0 <= j < rest.len() ==> rest[j] != sep);
        lemma_split_whole(rest, sep);
    }
    parts.push(g);
    proof {
        assert(parts@.map_values(|p: Vec<char>| p@) =~= parts@.subrange(
            0,
            parts@.len() - 1,
        ).map_values(|p: Vec<char>| p@).push(rest));
        assert(parts@.map_values(|p: Vec<char>| p@) =~= split_on(v@, sep));
    }
    parts
}

// ---------------------------------------------------------------------------
// Groups of characters from one class
// ---------------------------------------------------------------------------

pub open spec fn all_digits(g: Seq<char>) -> bool {
    forall|i: int| 0 <= i < g.len() ==> is_digit(g[i])
}

pub open spec fn all_hex(g: Seq<char>) -> bool {
    forall|i: int| 0 <= i < g.len() ==> is_hex_digit(g[i])
}

pub open spec fn all_zone(g: Seq<char>) -> bool {
    forall|i: int| 0 <= i < g.len() ==> is_zone_char(g[i])
}

pub open spec fn all_zeros(g: Seq<char>) -> bool {
    forall|i: int| 0 <= i < g.len() ==> g[i] == '0'
}

/// A group of `min` to `max` decimal digits.
pub open spec fn is_digit_group(g: Seq<char>, min: int, max: int) -> bool {
    min <= g.len() <= max && all_digits(g)
}

/// A group of one to four hexadecimal digits.
pub open spec fn is_hex_group(g: Seq<char>) -> bool {
    1 <= g.len() <= 4 && all_hex(g)
}

pub fn digits_vec(g: &Vec<char>) -> (r: bool)
    ensures
        r == all_digits(g@),
{
    let mut i: usize = 0;
    while i < g.len()
        invariant
            i <= g@.len(),
            forall|j: int| 0 <= j < i ==> is_digit(g@[j]),
        decreases g@.len() - i,
    {
        if !digit(g[i]) {
            return false;
        }
        i = i + 1;
    }
    true
}

pub fn hex_vec(g: &Vec<char>) -> (r: bool)
    ensures
        r == all_hex(g@),
{
    let mut i: usize = 0;
    while i < g.len()
        invariant
            i <= g@.len(),
            forall|j: int| 0 <= j < i ==> is_hex_digit(g@[j]),
        decreases g@.len() - i,
    {
        if !hex_digit(g[i]) {
            return false;
        }
        i = i + 1;
    }
    true
}

pub fn zone_vec(g: &Vec<char>) -> (r: bool)
    ensures
        r == all_zone(g@),
{
    let mut i: usize = 0;
    while i < g.len()
        invariant
            i <= g@.len(),
            forall|j: int| 0 <= j < i ==> is_zone_char(g@[j]),
        decreases g@.len() - i,
    {
        if !zone_char(g[i]) {
            return false;
        }
        i = i + 1;
    }
    true
}

pub fn zeros_vec(g: &Vec<char>) -> (r: bool)
    ensures
        r == all_zeros(g@),
{
    let mut i: usize = 0;
    while i < g.len()
        invariant
            i <= g@.len(),
            forall|j: int| 0 <= j < i ==> g@[j] == '0',
        decreases g@.len() - i,
    {
        if !(g[i] == '0') {
            return false;
        }
        i = i + 1;
    }
    true
}

pub fn digit_group_vec(g: &Vec<char>, min: usize, max: usize) -> (r: bool)
    ensures
        r == is_digit_group(g@, min as int, max as int),
{
    min <= g.len() && g.len() <= max && digits_vec(g)
}

/// Value of a short group of decimal digits (at most three).
pub open spec fn dec_val(g: Seq<char>) -> int
    decreases g.len(),
{
    if g.len() == 0 {
        0
    } else {
        dec_val(g.subrange(0, g.len() - 1)) * 10 + (g[g.len() - 1] as u32 - '0' as u32)
    }
}

/// Computes [`dec_val`] for a group of at most three digits.
pub fn dec_val_vec(g: &Vec<char>) -> (r: u32)
    requires
        all_digits(g@),
        g@.len() <= 3,
    ensures
        r == dec_val(g@),
        r <= 999,
{
    let mut r: u32 = 0;
    let mut i: usize = 0;
    while i < g.len()
        invariant
            i <= g@.len() <= 3,
            all_digits(g@),
            r == dec_val(g@.subrange(0, i as int)),
            r <= (if i == 0 {
                0int
            } else if i == 1 {
                9int
            } else if i == 2 {
                99int
            } else {
                999int
            }),
        decreases g@.len() - i,
    {
        proof {
            assert(is_digit(g@[i as int]));
            assert(g@.subrange(0, i + 1).subrange(0, i as int) =~= g@.subrange(0, i as int));
            assert(dec_val(g@.subrange(0, i + 1)) == dec_val(g@.subrange(0, i as int)) * 10 + (
            g@[i as int] as u32 - '0' as u32));
            assert(r <= 99);
        }
        r = r * 10 + (g[i] as u32 - '0' as u32);
        i = i + 1;
    }
    proof {
        assert(g@.subrange(0, g@.len() as int) =~= g@);
    }
    r
}

// ---------------------------------------------------------------------------
// Trimming whitespace
// ---------------------------------------------------------------------------

/// `s` with leading and trailing whitespace removed.
pub open spec fn spec_trim(s: Seq<char>) -> Seq<char>
    decreases s.len(),
{
    if s.len() == 0 {
        s
    } else if is_space(s[0]) {
        spec_trim(s.subrange(1, s.len() as int))
    } else if is_space(s[s.len() - 1]) {
        spec_trim(s.subrange(0, s.len() - 1))
    } else {
        s
    }
}

pub proof fn lemma_trim_all_space(s: Seq<char>)
    requires
        forall|j: int| 0 <= j < s.len() ==> is_space(s[j]),
    ensures
        spec_trim(s) == Seq::<char>::empty(),
    decreases s.len(),
{
    if s.len() == 0 {
        assert(s =~= Seq::<char>::empty());
    } else {
        let t = s.subrange(1, s.len() as int);
        assert(forall|j: int| 0 <= j < t.len() ==> is_space(t[j]));
        lemma_trim_all_space(t);
    }
}

pub proof fn lemma_trim_bounds(s: Seq<char>, lo: int, hi: int)
    requires
        0 <= lo < hi <= s.len(),
        forall|j: int| 0 <= j < lo ==> is_space(s[j]),
        forall|j: int| hi <= j < s.len() ==> is_space(s[j]),
        !is_space(s[lo]),
        !is_space(s[hi - 1]),
    ensures
        spec_trim(s) == s.subrange(lo, hi),
    decreases s.len(),
{
    if lo > 0 {
        let t = s.subrange(1, s.len() as int);
        lemma_trim_bounds(t, lo - 1, hi - 1);
        assert(t.subrange(lo - 1, hi - 1) =~= s.subrange(lo, hi));
    } else if hi < s.len() {
        let t = s.subrange(0, s.len() - 1);
        lemma_trim_bounds(t, lo, hi);
        assert(t.subrange(lo, hi) =~= s.subrange(lo, hi));
    } else {
        assert(s.subrange(0, s.len() as int) =~= s);
    }
}

/// A sequence without whitespace is already trimmed.
pub proof fn lemma_trim_no_space(s: Seq<char>)
    requires
        forall|j: int| 0 <= j < s.len() ==> !is_space(s[j]),
    ensures
        spec_trim(s) == s,
{
    if s.len() > 0 {
        lemma_trim_bounds(s, 0, s.len() as int);
        assert(s.subrange(0, s.len() as int) =~= s);
    } else {
        assert(spec_trim(s) == s);
    }
}

/// First index at or after `from` holding a non-whitespace character, or
/// the length when there is none.
fn scan_space(v: &Vec<char>, from: usize) -> (r: usize)
    requires
        from <= v@.len(),
    ensures
        from <= r <= v@.len(),
        forall|j: int| from <= j < r ==> is_space(v@[j]),
        r < v@.len() ==> !is_space(v@[r as int]),
{
    let mut i: usize = from;
    while i < v.len()
        invariant
            from <= i <= v@.len(),
            forall|j: int| from <= j < i ==> is_space(v@[j]),
        decreases v@.len() - i,
    {
        if !space(v[i]) {
            return i;
        }
        i = i + 1;
    }
    i
}

/// Bounds of the trimmed region: `spec_trim(v@)` is `v@[lo..hi]`.
pub fn trim_bounds(v: &Vec<char>) -> (r: (usize, usize))
    ensures
        r.0 <= r.1 <= v@.len(),
        spec_trim(v@) == v@.subrange(r.0 as int, r.1 as int),
{
    let lo = scan_space(v, 0);
    if lo == v.len() {
        proof {
            lemma_trim_all_space(v@);
            assert(v@.subrange(lo as int, lo as int) =~= Seq::<char>::empty());
        }
        return (lo, lo);
    }
    let mut hi: usize = v.len();
    let mut scanning = true;
    while scanning && hi > lo + 1
        invariant
            lo < hi <= v@.len(),
            forall|j: int| hi <= j < v@.len() ==> is_space(v@[j]),
            !scanning ==> !is_space(v@[hi - 1]),
        decreases hi, (if scanning { 1int } else { 0int }),
    {
        if space(v[hi - 1]) {
            hi = hi - 1;
        } else {
            scanning = false;
        }
    }
    proof {
        lemma_trim_bounds(v@, lo as int, hi as int);
    }
    (lo, hi)
}

} // verus!
