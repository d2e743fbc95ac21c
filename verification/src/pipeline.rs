//! The extraction pipeline around the validators and the extractor:
//! filtering candidates into CIDR entries in document order, deciding the
//! outcome of an HTTP response, and building the request URL and the
//! output file name.

use crate::chars::{
    first_index_of, is_digit, is_digit_group, split_on, lemma_first_index_of, lemma_split_chars,
    lemma_split_whole,
};
use crate::dom::{
    dom_of, find_table_from, spec_extract, extract_candidates, lemma_no_table_empty, parse_nodes,
};
use crate::ipv4::{is_ipv4_cidr, lemma_ipv4_line_safe, spec_is_ipv4_cidr};
use crate::ipv6::{is_ipv6_cidr, lemma_ipv6_line_safe, spec_is_ipv6_addr, spec_is_ipv6_cidr};
use crate::lines::{spec_lines, spec_render_lines, lemma_lines_round_trip};
use crate::PipelineError;
use vstd::prelude::*;
use vstd::string::StringExecFns;

verus! {

/// What one run of the extraction yields: a non-empty ordered list of
/// CIDR entries, or the distinct no-data outcome.
pub enum ExtractionResult {
    /// The valid CIDR entries, in document order, duplicates preserved.
    Entries(Vec<String>),
    /// The table was absent or held no valid CIDR; not an error, and no
    /// file is to be written.
    EmptyResult,
}

/// A candidate qualifies when it matches either CIDR grammar.
pub open spec fn spec_is_cidr(e: Seq<char>) -> bool {
    spec_is_ipv4_cidr(e) || spec_is_ipv6_cidr(e)
}

/// Decides [`spec_is_cidr`].
pub fn is_cidr(s: &str) -> (r: bool)
    ensures
        r == spec_is_cidr(s@),
{
    is_ipv4_cidr(s) || is_ipv6_cidr(s)
}

/// The candidates that qualify, in order, duplicates preserved.
pub open spec fn spec_collect(cs: Seq<Seq<char>>) -> Seq<Seq<char>>
    decreases cs.len(),
{
    if cs.len() == 0 {
        Seq::empty()
    } else {
        spec_collect(cs.drop_last()) + (if spec_is_cidr(cs.last()) {
            seq![cs.last()]
        } else {
            Seq::empty()
        })
    }
}

/// Every collected entry qualifies, and comes from the candidates.
pub proof fn lemma_collect_entries(cs: Seq<Seq<char>>)
    ensures
        forall|i: int|
            0 <= i < spec_collect(cs).len() ==> spec_is_cidr(#[trigger] spec_collect(cs)[i])
                && cs.contains(spec_collect(cs)[i]),
    decreases cs.len(),
{
    if cs.len() > 0 {
        let d = cs.drop_last();
        lemma_collect_entries(d);
        let col = spec_collect(cs);
        let cold = spec_collect(d);
        assert forall|i: int|
            0 <= i < col.len() implies spec_is_cidr(#[trigger] col[i]) && cs.contains(col[i]) by {
            if i < cold.len() {
                assert(col[i] == cold[i]);
                assert(d.contains(cold[i]));
                let j = choose|j: int| 0 <= j < d.len() && d[j] == cold[i];
                assert(cs[j] == cold[i]);
            } else {
                assert(spec_is_cidr(cs.last()));
                assert(col[i] == cs.last());
                assert(cs[cs.len() - 1] == cs.last());
            }
        }
    }
}

/// Filters the candidate texts through both CIDR grammars, preserving
/// encounter order and duplicates.
#[verifier::loop_isolation(false)]
pub fn collect_cidrs(cands: &Vec<String>) -> (r: Vec<String>)
    ensures
        r.deep_view() == spec_collect(cands.deep_view()),
{
    let mut out: Vec<String> = Vec::new();
    let mut i: usize = 0;
    proof {
        assert(cands.deep_view().subrange(0, 0) =~= Seq::<Seq<char>>::empty());
    }
    while i < cands.len()
        invariant
            i <= cands@.len(),
            cands.deep_view().len() == cands@.len(),
            out.deep_view() == spec_collect(cands.deep_view().subrange(0, i as int)),
        decreases cands@.len() - i,
    {
        let ghost pre = cands.deep_view().subrange(0, i as int);
        let ghost cur = cands.deep_view().subrange(0, i + 1);
        proof {
            assert(cur.drop_last() =~= pre);
            assert(cands.deep_view()[i as int] == cands@[i as int]@);
            assert(cur.last() == cands@[i as int]@);
        }
        if is_cidr(cands[i].as_str()) {
            let ghost before = out.deep_view();
            out.push(cands[i].clone());
            proof {
                assert(out.deep_view() =~= before.push(cands@[i as int]@));
                assert(out.deep_view() =~= spec_collect(cur));
            }
        } else {
            proof {
                assert(spec_collect(cur) =~= spec_collect(pre));
            }
        }
        i = i + 1;
    }
    proof {
        assert(cands.deep_view().subrange(0, cands@.len() as int) =~= cands.deep_view());
    }
    out
}

/// The two CIDR grammars are disjoint — an IPv4 match holds only digits,
/// dots and one slash, while every IPv6 form needs a colon or a percent
/// sign — so a qualifying entry satisfies exactly one of the two.
pub proof fn lemma_grammars_disjoint(e: Seq<char>)
    requires
        spec_is_ipv4_cidr(e),
    ensures
        !spec_is_ipv6_cidr(e),
{
    let parts = split_on(e, '/');
    let addr = parts[0];
    let gs = split_on(addr, '.');
    assert forall|h: Seq<char>| gs.contains(h) implies !h.contains(':') && !h.contains('%') by {
        let k = choose|k: int| 0 <= k < gs.len() && gs[k] == h;
        assert(is_digit_group(gs[k], 1, 3));
        if h.contains(':') {
            let w = choose|w: int| 0 <= w < h.len() && h[w] == ':';
            assert(is_digit(h[w]));
        }
        if h.contains('%') {
            let w = choose|w: int| 0 <= w < h.len() && h[w] == '%';
            assert(is_digit(h[w]));
        }
    }
    lemma_split_chars(addr, '.', ':');
    lemma_split_chars(addr, '.', '%');
    assert forall|j: int| 0 <= j < addr.len() implies addr[j] != ':' by {
        if addr[j] == ':' {
            assert(addr.contains(':'));
        }
    }
    lemma_split_whole(addr, ':');
    assert(split_on(addr, ':').len() == 1);
    lemma_first_index_of(addr, '%');
    if first_index_of(addr, '%') != -1 {
        assert(addr[first_index_of(addr, '%')] == '%');
        assert(addr.contains('%'));
    }
    assert(!spec_is_ipv6_addr(addr));
}

/// A qualifying entry is nonempty and holds no newline: it is safe as one
/// output line.
pub proof fn lemma_cidr_line_safe(e: Seq<char>)
    requires
        spec_is_cidr(e),
    ensures
        !e.contains('\n'),
        e.len() > 0,
{
    if spec_is_ipv4_cidr(e) {
        lemma_ipv4_line_safe(e);
    } else {
        lemma_ipv6_line_safe(e);
    }
}

/// Round trip over the collector: rendering the entries collected from
/// any candidate list, one per line, and reading the text back line by
/// line reproduces exactly those entries, in the same order.
pub proof fn lemma_collected_round_trip(cs: Seq<Seq<char>>)
    ensures
        spec_lines(spec_render_lines(spec_collect(cs))) == spec_collect(cs),
{
    let es = spec_collect(cs);
    lemma_collect_entries(cs);
    assert forall|i: int| 0 <= i < es.len() implies !(#[trigger] es[i]).contains('\n') by {
        lemma_cidr_line_safe(es[i]);
    }
    lemma_lines_round_trip(es);
}

/// The entries the whole pipeline owes for a document: extraction, then
/// both validators.
pub open spec fn spec_pipeline_entries(html: Seq<char>) -> Seq<Seq<char>> {
    spec_collect(spec_extract(dom_of(html)))
}

/// Parses the document, extracts the candidates of the prefix table and
/// collects the valid CIDR entries; the no-data outcome if and only if no
/// entry qualifies.
pub fn process_document(html: &str) -> (r: ExtractionResult)
    ensures
        match r {
            ExtractionResult::Entries(es) => es.deep_view() == spec_pipeline_entries(html@)
                && es@.len() > 0,
            ExtractionResult::EmptyResult => spec_pipeline_entries(html@).len() == 0,
        },
{
    let nodes = parse_nodes(html);
    let cands = extract_candidates(&nodes);
    let entries = collect_cidrs(&cands);
    if entries.len() == 0 {
        ExtractionResult::EmptyResult
    } else {
        ExtractionResult::Entries(entries)
    }
}

/// A document whose node list holds no prefix table ends in the no-data
/// outcome: the pipeline owes no entries and writes nothing.
pub proof fn lemma_no_table_no_entries(html: Seq<char>)
    requires
        find_table_from(dom_of(html), 0) == -1,
    ensures
        spec_pipeline_entries(html).len() == 0,
{
    lemma_no_table_empty(dom_of(html));
}

/// An HTTP status in the success range.
pub open spec fn spec_is_success(status: u16) -> bool {
    200 <= status < 300
}

pub fn is_success_status(status: u16) -> (r: bool)
    ensures
        r == spec_is_success(status),
{
    200 <= status && status < 300
}

/// Decides a fetched response: a non-2xx status is `RequestFailed` with
/// the attempted URL and no retry; a success body goes through the
/// extraction pipeline.
pub fn handle_response(status: u16, url: &str, body: &str) -> (r: Result<
    ExtractionResult,
    PipelineError,
>)
    ensures
        spec_is_success(status) ==> match r {
            Ok(ExtractionResult::Entries(es)) => es.deep_view() == spec_pipeline_entries(body@)
                && es@.len() > 0,
            Ok(ExtractionResult::EmptyResult) => spec_pipeline_entries(body@).len() == 0,
            Err(_) => false,
        },
        !spec_is_success(status) ==> match r {
            Err(PipelineError::RequestFailed { status: s, url: u }) => s == status && u@ == url@,
            _ => false,
        },
{
    if !is_success_status(status) {
        return Err(PipelineError::RequestFailed { status, url: url.to_owned() });
    }
    Ok(process_document(body))
}

/// The fixed lookup location for an ASN.
pub fn build_url(asn: &str) -> (r: String)
    ensures
        r@ == "https://whoisrequest.com/ip/"@ + asn@,
{
    String::from_str("https://whoisrequest.com/ip/").concat(asn)
}

/// The output file name derived from the ASN.
pub fn output_filename(asn: &str) -> (r: String)
    ensures
        r@ == asn@ + "_whoisrequest.com_CIDRs.txt"@,
{
    asn.to_owned().concat("_whoisrequest.com_CIDRs.txt")
}

} // verus!
