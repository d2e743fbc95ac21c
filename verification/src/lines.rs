//! Rendering collected entries as lines — one entry, one `'\n'` — and
//! reading such a text back, with the proof that the two are inverse on
//! entries without newlines, CIDR entries in particular.

use crate::chars::{split_on, to_chars, lemma_split_prefix, lemma_split_whole};
use vstd::prelude::*;
use vstd::string::StrSliceExecFns;
use vstd::string::StringExecFns;

verus! {

/// The rendered text: each entry followed by one newline.
pub open spec fn spec_render_lines(es: Seq<Seq<char>>) -> Seq<char>
    decreases es.len(),
{
    if es.len() == 0 {
        Seq::empty()
    } else {
        spec_render_lines(es.drop_last()) + es.last() + seq!['\n']
    }
}

/// The lines of a text: the groups between newlines, one trailing newline
/// not counted as starting a last empty line.
pub open spec fn spec_lines(t: Seq<char>) -> Seq<Seq<char>> {
    if t.len() == 0 {
        Seq::empty()
    } else if t.last() == '\n' {
        split_on(t.subrange(0, t.len() - 1), '\n')
    } else {
        split_on(t, '\n')
    }
}

/// Renders the entries, one per line.
#[verifier::loop_isolation(false)]
pub fn render_lines(entries: &Vec<String>) -> (r: String)
    ensures
        r@ == spec_render_lines(entries.deep_view()),
{
    let mut out = String::new();
    let mut i: usize = 0;
    while i < entries.len()
        invariant
            i <= entries@.len(),
            out@ == spec_render_lines(entries.deep_view().subrange(0, i as int)),
        decreases entries@.len() - i,
    {
        let ghost pre = entries.deep_view().subrange(0, i as int);
        let ghost cur = entries.deep_view().subrange(0, i + 1);
        out.append(entries[i].as_str());
        out.append("\n");
        proof {
            reveal_strlit("\n");
            assert(cur.drop_last() =~= pre);
            assert(entries.deep_view()[i as int] == entries@[i as int]@);
            assert(out@ =~= spec_render_lines(cur));
        }
        i = i + 1;
    }
    proof {
        assert(entries.deep_view().subrange(0, entries@.len() as int) =~= entries.deep_view());
    }
    out
}

/// Reads a rendered text back into its lines.
#[verifier::loop_isolation(false)]
pub fn split_lines(text: &str) -> (r: Vec<String>)
    ensures
        r.deep_view() == spec_lines(text@),
{
    let v = to_chars(text);
    let n = v.len();
    let mut out: Vec<String> = Vec::new();
    if n == 0 {
        proof {
            assert(out.deep_view() =~= spec_lines(text@));
        }
        return out;
    }
    let m: usize = if v[n - 1] == '\n' {
        n - 1
    } else {
        n
    };
    let ghost body = text@.subrange(0, m as int);
    let mut start: usize = 0;
    let mut j: usize = 0;
    proof {
        assert(body.subrange(0, body.len() as int) =~= body);
    }
    while j < m
        invariant
            start <= j <= m <= text@.len(),
            m as int == body.len(),
            forall|k: int| start <= k < j ==> body[k] != '\n',
            split_on(body, '\n') == out.deep_view() + split_on(
                body.subrange(start as int, m as int),
                '\n',
            ),
        decreases m - j,
    {
        if v[j] == '\n' {
            let ghost rest = body.subrange(start as int, m as int);
            let line = text.substring_char(start, j).to_owned();
            proof {
                assert(forall|k: int| 0 <= k < j - start ==> rest[k] != '\n');
                assert(rest[j - start] == '\n');
                lemma_split_prefix(rest, '\n', j - start as int);
                assert(rest.subrange(0, j - start as int) =~= text@.subrange(
                    start as int,
                    j as int,
                ));
                assert(rest.subrange(j - start as int + 1, rest.len() as int) =~= body.subrange(
                    j + 1,
                    m as int,
                ));
            }
            let ghost before = out.deep_view();
            out.push(line);
            proof {
                assert(out.deep_view() =~= before.push(text@.subrange(start as int, j as int)));
                assert(split_on(body, '\n') =~= out.deep_view() + split_on(
                    body.subrange(j + 1, m as int),
                    '\n',
                ));
            }
            start = j + 1;
        }
        j = j + 1;
    }
    let ghost rest = body.subrange(start as int, m as int);
    let line = text.substring_char(start, m).to_owned();
    proof {
        assert(forall|k: int| 0 <= k < rest.len() ==> rest[k] != '\n');
        lemma_split_whole(rest, '\n');
    }
    let ghost before = out.deep_view();
    out.push(line);
    proof {
        assert(rest =~= text@.subrange(start as int, m as int));
        assert(out.deep_view() =~= before.push(rest));
        assert(out.deep_view() =~= split_on(body, '\n'));
        if m == n {
            assert(body =~= text@);
        }
        assert(out.deep_view() =~= spec_lines(text@));
    }
    out
}

/// A nonempty entry list renders to a text ending in a newline, and the
/// front entry splits off.
proof fn lemma_render_front(es: Seq<Seq<char>>)
    requires
        es.len() > 0,
    ensures
        spec_render_lines(es) == es.first() + seq!['\n'] + spec_render_lines(es.drop_first()),
        spec_render_lines(es).len() > es.first().len(),
        spec_render_lines(es).last() == '\n',
    decreases es.len(),
{
    if es.len() == 1 {
        assert(es.drop_last() =~= Seq::<Seq<char>>::empty());
        assert(es.drop_first() =~= Seq::<Seq<char>>::empty());
        assert(spec_render_lines(es) =~= es.first() + seq!['\n'] + spec_render_lines(
            es.drop_first(),
        ));
    } else {
        let d = es.drop_last();
        lemma_render_front(d);
        assert(d.first() == es.first());
        assert(d.drop_first() =~= es.drop_first().drop_last());
        assert(es.drop_first().len() > 0);
        lemma_render_front(es.drop_first());
        assert(es.drop_first().last() == es.last());
        assert(spec_render_lines(es) == spec_render_lines(d) + es.last() + seq!['\n']);
        assert(spec_render_lines(es.drop_first()) == spec_render_lines(es.drop_first().drop_last())
            + es.last() + seq!['\n']);
        assert(spec_render_lines(es) =~= es.first() + seq!['\n'] + spec_render_lines(
            es.drop_first(),
        ));
    }
}

/// Round trip: rendering entries that hold no newline and reading the
/// text back line by line reproduces the entries exactly — same count,
/// same order, no blank line added, no entry duplicated.
pub proof fn lemma_lines_round_trip(es: Seq<Seq<char>>)
    requires
        forall|i: int| 0 <= i < es.len() ==> !(#[trigger] es[i]).contains('\n'),
    ensures
        spec_lines(spec_render_lines(es)) == es,
    decreases es.len(),
{
    if es.len() == 0 {
        assert(spec_lines(spec_render_lines(es)) =~= es);
    } else {
        lemma_render_front(es);
        let t = spec_render_lines(es);
        let e0 = es.first();
        let rest = es.drop_first();
        let body = t.subrange(0, t.len() - 1);
        assert(t.last() == '\n');
        if rest.len() == 0 {
            assert(body =~= e0);
            assert(forall|k: int| 0 <= k < e0.len() ==> e0[k] != '\n') by {
                assert(!es[0].contains('\n'));
            }
            lemma_split_whole(body, '\n');
            assert(spec_lines(t) =~= seq![e0]);
            assert(es =~= seq![e0]);
        } else {
            lemma_render_front(rest);
            let t1 = spec_render_lines(rest);
            assert(t =~= e0 + seq!['\n'] + t1);
            assert(t1.len() > 0 && t1.last() == '\n');
            let body1 = t1.subrange(0, t1.len() - 1);
            assert(body =~= e0 + seq!['\n'] + body1);
            assert(forall|k: int| 0 <= k < e0.len() ==> body[k] == e0[k] && e0[k] != '\n') by {
                assert(!es[0].contains('\n'));
            }
            assert(body[e0.len() as int] == '\n');
            lemma_split_prefix(body, '\n', e0.len() as int);
            assert(body.subrange(0, e0.len() as int) =~= e0);
            assert(body.subrange(e0.len() as int + 1, body.len() as int) =~= body1);
            assert(forall|i: int| 0 <= i < rest.len() ==> !(#[trigger] rest[i]).contains('\n'))
                by {
                assert(forall|i: int|
                    0 <= i < rest.len() ==> rest[i] == #[trigger] es[i + 1] && !es[
                        i + 1
                    ].contains('\n'));
            }
            lemma_lines_round_trip(rest);
            assert(spec_lines(t1) == split_on(body1, '\n'));
            assert(split_on(body, '\n') =~= seq![e0] + split_on(body1, '\n'));
            assert(spec_lines(t) =~= seq![e0] + spec_lines(t1));
            assert(seq![e0] + rest =~= es);
        }
    }
}

} // verus!
