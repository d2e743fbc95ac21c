//! The IPv4 CIDR grammar: four dot-separated groups of one to three
//! digits, a slash, and one or two digits of prefix length. The grammar
//! deliberately performs no numeric range check (`999.999.999.999/99` is
//! accepted), preserving the behaviour this library reproduces.

use crate::chars::{
    all_digits, first_index_of, is_digit, is_digit_group, split_on, split_chars, to_chars,
    digit_group_vec, lemma_split_chars, lemma_split_prefix, lemma_split_whole,
};
use vstd::prelude::*;

verus! {


/// Four dot-separated groups of one to three digits.
pub open spec fn spec_is_ipv4_addr(t: Seq<char>) -> bool {
    let gs = split_on(t, '.');
    gs.len() == 4 && forall|i: int| 0 <= i < 4 ==> is_digit_group(#[trigger] gs[i], 1, 3)
}

/// The lax IPv4 CIDR grammar: address, slash, one or two digits.
pub open spec fn spec_is_ipv4_cidr(s: Seq<char>) -> bool {
    let parts = split_on(s, '/');
    &&& parts.len() == 2
    &&& spec_is_ipv4_addr(parts[0])
    &&& is_digit_group(parts[1], 1, 2)
}

/// Decides the IPv4 CIDR grammar.
#[verifier::loop_isolation(false)]
pub fn is_ipv4_cidr(s: &str) -> (r: bool)
    ensures
        r == spec_is_ipv4_cidr(s@),
{
    let v = to_chars(s);
    let parts = split_chars(&v, '/');
    let ghost pviews = parts@.map_values(|p: Vec<char>| p@);
    if parts.len() != 2 {
        return false;
    }
    if !digit_group_vec(&parts[1], 1, 2) {
        proof {
            assert(pviews[1] == parts@[1]@);
        }
        return false;
    }
    let gs = split_chars(&parts[0], '.');
    let ghost gviews = gs@.map_values(|g: Vec<char>| g@);
    proof {
        assert(pviews[0] == parts@[0]@);
    }
    if gs.len() != 4 {
        return false;
    }
    let mut i: usize = 0;
    while i < 4
        invariant
            i <= 4,
            gs@.len() == 4,
            gviews == gs@.map_values(|g: Vec<char>| g@),
            forall|j: int| 0 <= j < i ==> is_digit_group(#[trigger] gviews[j], 1, 3),
        decreases 4 - i,
    {
        if !digit_group_vec(&gs[i], 1, 3) {
            proof {
                assert(gviews[i as int] == gs@[i as int]@);
            }
            return false;
        }
        proof {
            assert(gviews[i as int] == gs@[i as int]@);
        }
        i = i + 1;
    }
    true
}

/// Every string built from four one-to-three digit groups, a slash and a
/// one-to-two digit prefix matches the grammar.
pub proof fn lemma_ipv4_shape(a: Seq<char>, b: Seq<char>, c: Seq<char>, d: Seq<char>, n: Seq<char>)
    requires
        is_digit_group(a, 1, 3),
        is_digit_group(b, 1, 3),
        is_digit_group(c, 1, 3),
        is_digit_group(d, 1, 3),
        is_digit_group(n, 1, 2),
    ensures
        spec_is_ipv4_cidr(a + seq!['.'] + b + seq!['.'] + c + seq!['.'] + d + seq!['/'] + n),
{
    let addr = a + seq!['.'] + b + seq!['.'] + c + seq!['.'] + d;
    let s = addr + seq!['/'] + n;
    let fi = addr.len() as int;
    assert(s[fi] == '/');
    assert forall|j: int| 0 <= j < fi implies s[j] != '/' by {
        lemma_addr_char(a, b, c, d, j);
    }
    lemma_split_prefix(s, '/', fi);
    assert(s.subrange(0, fi) =~= addr);
    assert(s.subrange(fi + 1, s.len() as int) =~= n);
    assert(forall|j: int| 0 <= j < n.len() ==> is_digit(n[j]) && n[j] != '/');
    lemma_split_whole(n, '/');
    let parts = split_on(s, '/');
    assert(parts =~= seq![addr] + seq![n]);
    assert(parts.len() == 2 && parts[0] == addr && parts[1] == n);
    lemma_ipv4_addr_split(a, b, c, d);
}

/// A match of the IPv4 grammar is nonempty and holds no newline, so it is
/// safe as one output line.
pub proof fn lemma_ipv4_line_safe(e: Seq<char>)
    requires
        spec_is_ipv4_cidr(e),
    ensures
        !e.contains('\n'),
        e.len() > 0,
{
    let parts = split_on(e, '/');
    if e.len() == 0 {
        assert(first_index_of(e, '/') == -1);
        assert(parts.len() == 1);
    }
    assert forall|g: Seq<char>| parts.contains(g) implies !g.contains('\n') by {
        let j = choose|j: int| 0 <= j < parts.len() && parts[j] == g;
        if j == 0 {
            let gs = split_on(g, '.');
            assert forall|h: Seq<char>| gs.contains(h) implies !h.contains('\n') by {
                let k = choose|k: int| 0 <= k < gs.len() && gs[k] == h;
                assert(is_digit_group(gs[k], 1, 3));
                if h.contains('\n') {
                    let w = choose|w: int| 0 <= w < h.len() && h[w] == '\n';
                    assert(is_digit(h[w]));
                }
            }
            lemma_split_chars(g, '.', '\n');
        } else {
            assert(is_digit_group(parts[1], 1, 2));
            if g.contains('\n') {
                let w = choose|w: int| 0 <= w < g.len() && g[w] == '\n';
                assert(is_digit(g[w]));
            }
        }
    }
    lemma_split_chars(e, '/', '\n');
}

/// Characters of the dotted address are digits or dots.
proof fn lemma_addr_char(a: Seq<char>, b: Seq<char>, c: Seq<char>, d: Seq<char>, j: int)
    requires
        all_digits(a),
        all_digits(b),
        all_digits(c),
        all_digits(d),
        0 <= j < (a + seq!['.'] + b + seq!['.'] + c + seq!['.'] + d).len(),
    ensures
        is_digit((a + seq!['.'] + b + seq!['.'] + c + seq!['.'] + d)[j]) || (a + seq!['.'] + b
            + seq!['.'] + c + seq!['.'] + d)[j] == '.',
{
}

proof fn lemma_ipv4_addr_split(a: Seq<char>, b: Seq<char>, c: Seq<char>, d: Seq<char>)
    requires
        is_digit_group(a, 1, 3),
        is_digit_group(b, 1, 3),
        is_digit_group(c, 1, 3),
        is_digit_group(d, 1, 3),
    ensures
        spec_is_ipv4_addr(a + seq!['.'] + b + seq!['.'] + c + seq!['.'] + d),
{
    let addr = a + seq!['.'] + b + seq!['.'] + c + seq!['.'] + d;
    let t1 = b + seq!['.'] + c + seq!['.'] + d;
    let t2 = c + seq!['.'] + d;
    assert(forall|j: int| 0 <= j < a.len() ==> addr[j] == a[j] && is_digit(a[j]));
    assert(addr[a.len() as int] == '.');
    lemma_split_prefix(addr, '.', a.len() as int);
    assert(addr.subrange(0, a.len() as int) =~= a);
    assert(addr.subrange(a.len() as int + 1, addr.len() as int) =~= t1);
    assert(forall|j: int| 0 <= j < b.len() ==> t1[j] == b[j] && is_digit(b[j]));
    assert(t1[b.len() as int] == '.');
    lemma_split_prefix(t1, '.', b.len() as int);
    assert(t1.subrange(0, b.len() as int) =~= b);
    assert(t1.subrange(b.len() as int + 1, t1.len() as int) =~= t2);
    assert(forall|j: int| 0 <= j < c.len() ==> t2[j] == c[j] && is_digit(c[j]));
    assert(t2[c.len() as int] == '.');
    lemma_split_prefix(t2, '.', c.len() as int);
    assert(t2.subrange(0, c.len() as int) =~= c);
    assert(t2.subrange(c.len() as int + 1, t2.len() as int) =~= d);
    assert(forall|j: int| 0 <= j < d.len() ==> is_digit(d[j]) && d[j] != '.');
    lemma_split_whole(d, '.');
    let gs = split_on(addr, '.');
    assert(gs =~= seq![a] + (seq![b] + (seq![c] + seq![d])));
    assert(gs.len() == 4);
    assert(gs[0] == a && gs[1] == b && gs[2] == c && gs[3] == d);
}

} // verus!
