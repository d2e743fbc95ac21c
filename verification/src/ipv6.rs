//! The IPv6 CIDR grammar: a full eight-group address, a `::`-compressed
//! address, a `fe80:`-prefixed address with a zone index, or an address
//! with an embedded dotted IPv4 tail; optionally followed by `/` and a
//! prefix length of 0 to 128.

use crate::chars::{
    is_digit, is_hex_digit, is_zone_char, lemma_first_index_of, lemma_split_chars,
    all_digits, all_hex, all_zeros, all_zone, dec_val, first_index_of, is_hex_group, split_on,
    dec_val_vec, digits_vec, find_first, hex_vec, split_chars, subvec, to_chars, zeros_vec,
    zone_vec,
};
use vstd::prelude::*;

verus! {

// ---------------------------------------------------------------------------
// Specification
// ---------------------------------------------------------------------------

/// An octet of the embedded IPv4 tail: 0-255, a leading zero allowed only
/// in two-digit octets.
pub open spec fn is_strict_octet(g: Seq<char>) -> bool {
    all_digits(g) && (1 <= g.len() <= 2 || (g.len() == 3 && 100 <= dec_val(g) <= 255))
}

/// A dotted quad of strict octets.
pub open spec fn spec_is_strict_quad(q: Seq<char>) -> bool {
    let os = split_on(q, '.');
    os.len() == 4 && forall|i: int| 0 <= i < 4 ==> is_strict_octet(#[trigger] os[i])
}

pub open spec fn all_hex_range(gs: Seq<Seq<char>>, lo: int, hi: int) -> bool {
    forall|i: int| lo <= i < hi ==> is_hex_group(#[trigger] gs[i])
}

/// Index of the first empty group, or `-1` when none is empty.
pub open spec fn first_empty_index(gs: Seq<Seq<char>>) -> int
    decreases gs.len(),
{
    if gs.len() == 0 {
        -1
    } else if gs[0].len() == 0 {
        0
    } else {
        let r = first_empty_index(gs.subrange(1, gs.len() as int));
        if r < 0 {
            -1
        } else {
            r + 1
        }
    }
}

/// Eight colon-separated hex groups.
pub open spec fn is_full_split(gs: Seq<Seq<char>>) -> bool {
    gs.len() == 8 && all_hex_range(gs, 0, 8)
}

/// A `::`-compressed address, as groups: `k` head groups and `m` tail
/// groups around one compression point, with `k + m <= 7`; an empty side
/// shows as one more empty group.
pub open spec fn is_comp_split(gs: Seq<Seq<char>>) -> bool {
    let n = gs.len() as int;
    if n < 3 {
        false
    } else if gs[0].len() == 0 {
        gs[1].len() == 0 && ((n == 3 && gs[2].len() == 0) || (n <= 9 && all_hex_range(gs, 2, n)))
    } else {
        let e = first_empty_index(gs);
        &&& 1 <= e <= 7
        &&& all_hex_range(gs, 0, e)
        &&& ((n == e + 2 && gs[e + 1].len() == 0) || (e + 1 < n && n <= 8 && all_hex_range(
            gs,
            e + 1,
            n,
        )))
    }
}

/// A full or compressed address without zone index or IPv4 tail.
pub open spec fn spec_is_plain(t: Seq<char>) -> bool {
    let gs = split_on(t, ':');
    is_full_split(gs) || is_comp_split(gs)
}

pub open spec fn fe80_seq() -> Seq<char> {
    seq!['f', 'e', '8', '0']
}

pub open spec fn ffff_seq() -> Seq<char> {
    seq!['f', 'f', 'f', 'f']
}

/// A link-local address with a zone index: `fe80:`, up to four further
/// groups of at most four hex digits (possibly empty), `%`, and a
/// nonempty alphanumeric zone.
pub open spec fn spec_is_zone(t: Seq<char>) -> bool {
    let p = first_index_of(t, '%');
    0 <= p < t.len() && {
        let addr = t.subrange(0, p);
        let zone = t.subrange(p + 1, t.len() as int);
        &&& zone.len() >= 1
        &&& all_zone(zone)
        &&& {
            let gs = split_on(addr, ':');
            &&& 2 <= gs.len() <= 6
            &&& gs[0] == fe80_seq()
            &&& gs[1].len() == 0
            &&& forall|i: int|
                2 <= i < gs.len() ==> (#[trigger] gs[i]).len() <= 4 && all_hex(gs[i])
        }
    }
}

/// The embedded-IPv4 shape, stated over the groups of the colon split.
pub open spec fn spec_is_embedded_split(gs: Seq<Seq<char>>) -> bool {
    let n = gs.len() as int;
    n >= 3 && spec_is_strict_quad(gs[n - 1]) && {
        if gs[0].len() == 0 {
            gs[1].len() == 0 && (n == 3 || (n == 4 && gs[2] == ffff_seq()) || (n == 5 && gs[2]
                == ffff_seq() && 1 <= gs[3].len() <= 4 && all_zeros(gs[3])))
        } else {
            gs[n - 2].len() == 0 && n - 2 <= 4 && all_hex_range(gs, 0, n - 2)
        }
    }
}

/// An address ending in a dotted IPv4 quad: either `::`, `::ffff:` or
/// `::ffff:0...0:` before the quad, or one to four hex groups followed by
/// `::`.
pub open spec fn spec_is_embedded(t: Seq<char>) -> bool {
    spec_is_embedded_split(split_on(t, ':'))
}

pub open spec fn spec_is_ipv6_addr(t: Seq<char>) -> bool {
    spec_is_plain(t) || spec_is_zone(t) || spec_is_embedded(t)
}

/// A prefix length of 0 to 128, written without leading zeros.
pub open spec fn is_prefix_len(p: Seq<char>) -> bool {
    &&& all_digits(p)
    &&& 1 <= p.len() <= 3
    &&& (p.len() == 1 || p[0] != '0')
    &&& dec_val(p) <= 128
}

/// The IPv6 CIDR grammar: an address, optionally `/` and a prefix length.
pub open spec fn spec_is_ipv6_cidr(s: Seq<char>) -> bool {
    let parts = split_on(s, '/');
    if parts.len() == 1 {
        spec_is_ipv6_addr(parts[0])
    } else {
        parts.len() == 2 && spec_is_ipv6_addr(parts[0]) && is_prefix_len(parts[1])
    }
}

// ---------------------------------------------------------------------------
// Line safety
// ---------------------------------------------------------------------------

/// The groups of a matched address hold no newline.
proof fn lemma_addr_no_newline(t: Seq<char>)
    requires
        spec_is_ipv6_addr(t),
    ensures
        !t.contains('\n'),
{
    assert(all_hex(fe80_seq())) by {
        assert forall|i: int| 0 <= i < 4 implies is_hex_digit(fe80_seq()[i]) by {
            if i == 0 {
                assert(fe80_seq()[0] == 'f');
            } else if i == 1 {
                assert(fe80_seq()[1] == 'e');
            } else if i == 2 {
                assert(fe80_seq()[2] == '8');
            } else {
                assert(fe80_seq()[3] == '0');
            }
        }
    }
    assert(all_hex(ffff_seq())) by {
        assert forall|i: int| 0 <= i < 4 implies is_hex_digit(ffff_seq()[i]) by {
            assert(ffff_seq()[i] == 'f');
        }
    }
    if spec_is_plain(t) {
        let gs = split_on(t, ':');
        assert forall|g: Seq<char>| gs.contains(g) implies !g.contains('\n') by {
            let j = choose|j: int| 0 <= j < gs.len() && gs[j] == g;
            lemma_group_hex_or_empty(gs, j);
            no_newline_in_group(g);
        }
        lemma_split_chars(t, ':', '\n');
    } else if spec_is_zone(t) {
        let p = first_index_of(t, '%');
        lemma_first_index_of(t, '%');
        let addr = t.subrange(0, p);
        let zone = t.subrange(p + 1, t.len() as int);
        let gs = split_on(addr, ':');
        assert forall|g: Seq<char>| gs.contains(g) implies !g.contains('\n') by {
            let j = choose|j: int| 0 <= j < gs.len() && gs[j] == g;
            if j == 0 {
                assert(g == fe80_seq());
            } else if j >= 2 {
                assert(all_hex(gs[j]));
            }
            no_newline_in_group(g);
        }
        lemma_split_chars(addr, ':', '\n');
        if t.contains('\n') {
            let w = choose|w: int| 0 <= w < t.len() && t[w] == '\n';
            if w < p {
                assert(addr[w] == '\n');
                assert(addr.contains('\n'));
            } else if w == p {
                assert(t[p] == '%');
            } else {
                assert(is_zone_char(zone[w - p - 1]));
            }
        }
    } else {
        let gs = split_on(t, ':');
        let n = gs.len() as int;
        assert forall|g: Seq<char>| gs.contains(g) implies !g.contains('\n') by {
            let j = choose|j: int| 0 <= j < gs.len() && gs[j] == g;
            if j == n - 1 {
                lemma_quad_no_newline(g);
            } else if gs[0].len() == 0 {
                if j >= 2 {
                    assert(g == ffff_seq() || all_zeros(g));
                }
                no_newline_in_group(g);
            } else {
                if j < n - 2 {
                    assert(is_hex_group(gs[j]));
                }
                no_newline_in_group(g);
            }
        }
        lemma_split_chars(t, ':', '\n');
    }
}

/// A group that is empty, all hex, or all zeros holds no newline.
proof fn no_newline_in_group(g: Seq<char>)
    requires
        g.len() == 0 || all_hex(g) || all_zeros(g),
    ensures
        !g.contains('\n'),
{
    if g.contains('\n') {
        let w = choose|w: int| 0 <= w < g.len() && g[w] == '\n';
        assert(is_hex_digit(g[w]) || g[w] == '0');
    }
}

/// A strict quad holds no newline.
proof fn lemma_quad_no_newline(q: Seq<char>)
    requires
        spec_is_strict_quad(q),
    ensures
        !q.contains('\n'),
{
    let os = split_on(q, '.');
    assert forall|h: Seq<char>| os.contains(h) implies !h.contains('\n') by {
        let k = choose|k: int| 0 <= k < os.len() && os[k] == h;
        assert(is_strict_octet(os[k]));
        if h.contains('\n') {
            let w = choose|w: int| 0 <= w < h.len() && h[w] == '\n';
            assert(is_digit(h[w]));
        }
    }
    lemma_split_chars(q, '.', '\n');
}

/// Each group of a full or compressed address is a hex group or empty.
proof fn lemma_group_hex_or_empty(gs: Seq<Seq<char>>, j: int)
    requires
        is_full_split(gs) || is_comp_split(gs),
        0 <= j < gs.len(),
    ensures
        gs[j].len() == 0 || all_hex(gs[j]),
{
    let n = gs.len() as int;
    if is_full_split(gs) {
        assert(is_hex_group(gs[j]));
    } else if gs[0].len() == 0 {
        if j >= 2 && !(n == 3 && gs[2].len() == 0) {
            assert(is_hex_group(gs[j]));
        }
    } else {
        let e = first_empty_index(gs);
        lemma_first_empty_of(gs);
        if j < e {
            assert(is_hex_group(gs[j]));
        } else if j > e {
            if n == e + 2 && gs[e + 1].len() == 0 {
                assert(j == e + 1);
            } else {
                assert(is_hex_group(gs[j]));
            }
        }
    }
}

/// A match of the IPv6 grammar is nonempty and holds no newline, so it is
/// safe as one output line.
pub proof fn lemma_ipv6_line_safe(e: Seq<char>)
    requires
        spec_is_ipv6_cidr(e),
    ensures
        !e.contains('\n'),
        e.len() > 0,
{
    let parts = split_on(e, '/');
    if e.len() == 0 {
        assert(first_index_of(e, '/') == -1);
        assert(parts.len() == 1 && parts[0] == e);
        assert(first_index_of(e, ':') == -1);
        let gs = split_on(e, ':');
        assert(gs.len() == 1);
        assert(first_index_of(e, '%') == -1);
        assert(!spec_is_ipv6_addr(e));
    }
    assert forall|g: Seq<char>| parts.contains(g) implies !g.contains('\n') by {
        let j = choose|j: int| 0 <= j < parts.len() && parts[j] == g;
        if j == 0 {
            lemma_addr_no_newline(g);
        } else {
            assert(is_prefix_len(parts[1]));
            if g.contains('\n') {
                let w = choose|w: int| 0 <= w < g.len() && g[w] == '\n';
                assert(is_digit(g[w]));
            }
        }
    }
    lemma_split_chars(e, '/', '\n');
}

// ---------------------------------------------------------------------------
// Executable recogniser
// ---------------------------------------------------------------------------

proof fn lemma_first_empty_of(gs: Seq<Seq<char>>)
    ensures
        first_empty_index(gs) == -1 ==> forall|j: int| 0 <= j < gs.len() ==> (#[trigger] gs[j]).len() != 0,
        first_empty_index(gs) != -1 ==> {
            let f = first_empty_index(gs);
            &&& 0 <= f < gs.len()
            &&& gs[f].len() == 0
            &&& forall|j: int| 0 <= j < f ==> (#[trigger] gs[j]).len() != 0
        },
    decreases gs.len(),
{
    if gs.len() == 0 {
    } else if gs[0].len() == 0 {
    } else {
        let t = gs.subrange(1, gs.len() as int);
        lemma_first_empty_of(t);
        let f = first_empty_index(gs);
        if f != -1 {
            assert forall|j: int| 0 <= j < f implies (#[trigger] gs[j]).len() != 0 by {
                if j >= 1 {
                    assert(gs[j] == t[j - 1]);
                    assert(t[j - 1].len() != 0);
                }
            }
        } else {
            assert forall|j: int| 0 <= j < gs.len() implies (#[trigger] gs[j]).len() != 0 by {
                if j >= 1 {
                    assert(gs[j] == t[j - 1]);
                    assert(t[j - 1].len() != 0);
                }
            }
        }
    }
}

proof fn lemma_first_empty_witness(gs: Seq<Seq<char>>, i: int)
    requires
        0 <= i < gs.len(),
        gs[i].len() == 0,
        forall|j: int| 0 <= j < i ==> (#[trigger] gs[j]).len() != 0,
    ensures
        first_empty_index(gs) == i,
{
    lemma_first_empty_of(gs);
    let f = first_empty_index(gs);
    if f == -1 {
        assert(gs[i].len() != 0);
    } else if f < i {
        assert(gs[f].len() != 0);
    } else if f > i {
        assert(gs[i].len() != 0);
    }
}

/// Finds the first empty group.
#[verifier::loop_isolation(false)]
fn find_first_empty(gs: &Vec<Vec<char>>) -> (r: Option<usize>)
    ensures
        match r {
            Some(i) => i < gs@.len() && first_empty_index(gs@.map_values(|g: Vec<char>| g@))
                == i as int,
            None => first_empty_index(gs@.map_values(|g: Vec<char>| g@)) == -1,
        },
{
    let ghost views = gs@.map_values(|g: Vec<char>| g@);
    let mut i: usize = 0;
    while i < gs.len()
        invariant
            i <= gs@.len(),
            forall|j: int| 0 <= j < i ==> (#[trigger] views[j]).len() != 0,
        decreases gs@.len() - i,
    {
        if gs[i].len() == 0 {
            proof {
                lemma_first_empty_witness(views, i as int);
            }
            return Some(i);
        }
        i = i + 1;
    }
    proof {
        lemma_first_empty_of(views);
        if first_empty_index(views) != -1 {
            let f = first_empty_index(views);
            assert(views[f].len() != 0);
        }
    }
    None
}

/// Checks that groups `lo..hi` are all hex groups.
#[verifier::loop_isolation(false)]
fn hex_range_vec(gs: &Vec<Vec<char>>, lo: usize, hi: usize) -> (r: bool)
    requires
        lo <= hi <= gs@.len(),
    ensures
        r == all_hex_range(gs@.map_values(|g: Vec<char>| g@), lo as int, hi as int),
{
    let ghost views = gs@.map_values(|g: Vec<char>| g@);
    let mut i: usize = lo;
    while i < hi
        invariant
            lo <= i <= hi,
            forall|j: int| lo <= j < i ==> is_hex_group(#[trigger] views[j]),
        decreases hi - i,
    {
        let n = gs[i].len();
        if !(1 <= n && n <= 4 && hex_vec(&gs[i])) {
            proof {
                assert(views[i as int] == gs@[i as int]@);
            }
            return false;
        }
        proof {
            assert(views[i as int] == gs@[i as int]@);
        }
        i = i + 1;
    }
    true
}

/// Checks one strict octet.
fn strict_octet_vec(g: &Vec<char>) -> (r: bool)
    ensures
        r == is_strict_octet(g@),
{
    if !digits_vec(g) {
        return false;
    }
    if 1 <= g.len() && g.len() <= 2 {
        return true;
    }
    if g.len() != 3 {
        return false;
    }
    let v = dec_val_vec(g);
    100 <= v && v <= 255
}

/// Checks a dotted quad of strict octets.
#[verifier::loop_isolation(false)]
fn strict_quad_vec(q: &Vec<char>) -> (r: bool)
    ensures
        r == spec_is_strict_quad(q@),
{
    let os = split_chars(q, '.');
    let ghost views = os@.map_values(|g: Vec<char>| g@);
    if os.len() != 4 {
        return false;
    }
    let mut i: usize = 0;
    while i < 4
        invariant
            i <= 4,
            os@.len() == 4,
            forall|j: int| 0 <= j < i ==> is_strict_octet(#[trigger] views[j]),
        decreases 4 - i,
    {
        if !strict_octet_vec(&os[i]) {
            proof {
                assert(views[i as int] == os@[i as int]@);
            }
            return false;
        }
        proof {
            assert(views[i as int] == os@[i as int]@);
        }
        i = i + 1;
    }
    true
}

/// Checks a group against `ffff`.
fn ffff_vec(g: &Vec<char>) -> (r: bool)
    ensures
        r == (g@ == ffff_seq()),
{
    let r = g.len() == 4 && g[0] == 'f' && g[1] == 'f' && g[2] == 'f' && g[3] == 'f';
    proof {
        if r {
            assert(g@ =~= ffff_seq());
        }
    }
    r
}

/// Checks a group against `fe80`.
fn fe80_vec(g: &Vec<char>) -> (r: bool)
    ensures
        r == (g@ == fe80_seq()),
{
    let r = g.len() == 4 && g[0] == 'f' && g[1] == 'e' && g[2] == '8' && g[3] == '0';
    proof {
        if r {
            assert(g@ =~= fe80_seq());
        }
    }
    r
}

/// Decides [`is_comp_split`] on the groups.
#[verifier::loop_isolation(false)]
fn comp_split_vec(gs: &Vec<Vec<char>>) -> (r: bool)
    ensures
        r == is_comp_split(gs@.map_values(|g: Vec<char>| g@)),
{
    let ghost views = gs@.map_values(|g: Vec<char>| g@);
    let n = gs.len();
    if n < 3 {
        return false;
    }
    if gs[0].len() == 0 {
        if gs[1].len() != 0 {
            return false;
        }
        if n == 3 && gs[2].len() == 0 {
            return true;
        }
        return n <= 9 && hex_range_vec(gs, 2, n);
    }
    let e = match find_first_empty(gs) {
        Some(e) => e,
        None => {
            return false;
        },
    };
    if !(1 <= e && e <= 7) {
        return false;
    }
    if !hex_range_vec(gs, 0, e) {
        return false;
    }
    if n == e + 2 && gs[e + 1].len() == 0 {
        return true;
    }
    e + 1 < n && n <= 8 && hex_range_vec(gs, e + 1, n)
}

/// Decides the zone-index form on the whole character sequence.
#[verifier::loop_isolation(false)]
fn zone_form_vec(t: &Vec<char>) -> (r: bool)
    ensures
        r == spec_is_zone(t@),
{
    let p = match find_first(t, '%') {
        Some(p) => p,
        None => {
            return false;
        },
    };
    let tn = t.len();
    let zone = subvec(t, p + 1, tn);
    if zone.len() == 0 {
        return false;
    }
    if !zone_vec(&zone) {
        return false;
    }
    let addr = subvec(t, 0, p);
    let gs = split_chars(&addr, ':');
    let ghost views = gs@.map_values(|g: Vec<char>| g@);
    let n = gs.len();
    if !(2 <= n && n <= 6) {
        return false;
    }
    if !fe80_vec(&gs[0]) {
        proof {
            assert(views[0] == gs@[0]@);
        }
        return false;
    }
    if gs[1].len() != 0 {
        return false;
    }
    let mut i: usize = 2;
    while i < n
        invariant
            2 <= i <= n,
            n == gs@.len(),
            forall|j: int| 2 <= j < i ==> (#[trigger] views[j]).len() <= 4 && all_hex(views[j]),
        decreases n - i,
    {
        let ok = gs[i].len() <= 4 && hex_vec(&gs[i]);
        proof {
            assert(views[i as int] == gs@[i as int]@);
        }
        if !ok {
            return false;
        }
        i = i + 1;
    }
    true
}

/// Decides the embedded-IPv4 form on the groups.
#[verifier::loop_isolation(false)]
fn embedded_vec(gs: &Vec<Vec<char>>) -> (r: bool)
    ensures
        r == spec_is_embedded_split(gs@.map_values(|g: Vec<char>| g@)),
{
    let ghost views = gs@.map_values(|g: Vec<char>| g@);
    let n = gs.len();
    if n < 3 {
        return false;
    }
    if !strict_quad_vec(&gs[n - 1]) {
        proof {
            assert(views[n - 1] == gs@[n - 1]@);
        }
        return false;
    }
    if gs[0].len() == 0 {
        if gs[1].len() != 0 {
            return false;
        }
        if n == 3 {
            return true;
        }
        if n == 4 {
            return ffff_vec(&gs[2]);
        }
        if n == 5 {
            return ffff_vec(&gs[2]) && 1 <= gs[3].len() && gs[3].len() <= 4 && zeros_vec(&gs[3]);
        }
        return false;
    }
    gs[n - 2].len() == 0 && n - 2 <= 4 && hex_range_vec(gs, 0, n - 2)
}

/// Decides [`spec_is_ipv6_addr`] on a character vector.
#[verifier::loop_isolation(false)]
fn ipv6_addr_vec(t: &Vec<char>) -> (r: bool)
    ensures
        r == spec_is_ipv6_addr(t@),
{
    let gs = split_chars(t, ':');
    let full = gs.len() == 8 && hex_range_vec(&gs, 0, 8);
    let comp = comp_split_vec(&gs);
    let zone = zone_form_vec(t);
    let emb = embedded_vec(&gs);
    full || comp || zone || emb
}

/// Decides the IPv6 CIDR grammar.
#[verifier::loop_isolation(false)]
pub fn is_ipv6_cidr(s: &str) -> (r: bool)
    ensures
        r == spec_is_ipv6_cidr(s@),
{
    let v = to_chars(s);
    let parts = split_chars(&v, '/');
    let ghost pviews = parts@.map_values(|p: Vec<char>| p@);
    proof {
        assert(pviews[0] == parts@[0]@);
    }
    if parts.len() == 1 {
        ipv6_addr_vec(&parts[0])
    } else if parts.len() == 2 {
        proof {
            assert(pviews[1] == parts@[1]@);
        }
        let a = ipv6_addr_vec(&parts[0]);
        a && prefix_len_vec(&parts[1])
    } else {
        false
    }
}

/// Decides [`is_prefix_len`].
fn prefix_len_vec(p: &Vec<char>) -> (r: bool)
    ensures
        r == is_prefix_len(p@),
{
    if !(1 <= p.len() && p.len() <= 3) {
        return false;
    }
    if !digits_vec(p) {
        return false;
    }
    if p.len() > 1 && p[0] == '0' {
        return false;
    }
    let v = dec_val_vec(p);
    v <= 128
}

} // verus!
