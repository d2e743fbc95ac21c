use asn_prefixes::lines::{render_lines, split_lines};
use asn_prefixes::pipeline::{
    build_url, collect_cidrs, handle_response, is_cidr, output_filename, process_document,
    ExtractionResult,
};
use asn_prefixes::PipelineError;

const PAGE: &str = "<html><body>\
<a href=\"/other\">198.51.100.0/24</a>\
<table id=\"prefix-table\">\
<tr><td><a href=\"/ip/192.0.2.0/24\">192.0.2.0/24</a></td></tr>\
<tr><td><a>not-a-cidr</a></td></tr>\
<tr><td><a> 2001:db8::/32 </a></td></tr>\
</table>\
<a>203.0.113.0/24</a>\
</body></html>";

#[test]
fn extracts_only_anchors_inside_prefix_table() {
    match process_document(PAGE) {
        ExtractionResult::Entries(es) => {
            assert_eq!(es, vec!["192.0.2.0/24".to_string(), "2001:db8::/32".to_string()]);
        },
        ExtractionResult::EmptyResult => panic!("expected entries"),
    }
}

#[test]
fn missing_table_yields_empty_result() {
    let html = "<html><body><a>192.0.2.0/24</a><table id=\"other\">\
        <tr><td><a>10.0.0.0/8</a></td></tr></table></body></html>";
    assert!(matches!(process_document(html), ExtractionResult::EmptyResult));
}

#[test]
fn table_without_valid_cidrs_yields_empty_result() {
    let html = "<html><body><table id=\"prefix-table\">\
        <tr><td><a>nothing here</a></td></tr></table></body></html>";
    assert!(matches!(process_document(html), ExtractionResult::EmptyResult));
}

#[test]
fn empty_document_yields_empty_result() {
    assert!(matches!(process_document(""), ExtractionResult::EmptyResult));
}

#[test]
fn anchor_text_is_concatenated_across_nested_elements() {
    let html = "<html><body><table id=\"prefix-table\">\
        <tr><td><a href=\"/x\"><b>192.0.2.0</b>/24</a></td></tr>\
        </table></body></html>";
    match process_document(html) {
        ExtractionResult::Entries(es) => {
            assert_eq!(es, vec!["192.0.2.0/24".to_string()]);
        },
        ExtractionResult::EmptyResult => panic!("expected entries"),
    }
}

#[test]
fn duplicates_and_order_are_preserved() {
    let cands = vec![
        "2001:db8::/32".to_string(),
        "junk".to_string(),
        "192.0.2.0/24".to_string(),
        "2001:db8::/32".to_string(),
    ];
    let entries = collect_cidrs(&cands);
    assert_eq!(
        entries,
        vec![
            "2001:db8::/32".to_string(),
            "192.0.2.0/24".to_string(),
            "2001:db8::/32".to_string(),
        ]
    );
}

#[test]
fn either_grammar_qualifies() {
    assert!(is_cidr("192.0.2.0/24"));
    assert!(is_cidr("2001:db8::/32"));
    assert!(!is_cidr("not-a-cidr"));
}

#[test]
fn lines_round_trip() {
    let entries = vec![
        "192.0.2.0/24".to_string(),
        "2001:db8::/32".to_string(),
        "192.0.2.0/24".to_string(),
    ];
    let text = render_lines(&entries);
    assert_eq!(text, "192.0.2.0/24\n2001:db8::/32\n192.0.2.0/24\n");
    assert_eq!(split_lines(&text), entries);
}

#[test]
fn empty_render_round_trips() {
    let entries: Vec<String> = Vec::new();
    let text = render_lines(&entries);
    assert_eq!(text, "");
    assert_eq!(split_lines(&text), entries);
}

#[test]
fn non_success_status_is_request_failed() {
    let url = "https://whoisrequest.com/ip/AS1";
    match handle_response(404, url, PAGE) {
        Err(PipelineError::RequestFailed { status, url: u }) => {
            assert_eq!(status, 404);
            assert_eq!(u, url);
        },
        _ => panic!("expected RequestFailed"),
    }
    assert!(matches!(
        handle_response(301, url, PAGE),
        Err(PipelineError::RequestFailed { status: 301, .. })
    ));
    assert!(matches!(
        handle_response(500, url, PAGE),
        Err(PipelineError::RequestFailed { status: 500, .. })
    ));
    assert!(matches!(
        handle_response(199, url, PAGE),
        Err(PipelineError::RequestFailed { .. })
    ));
}

#[test]
fn success_status_runs_the_pipeline() {
    let url = "https://whoisrequest.com/ip/AS1";
    match handle_response(200, url, PAGE) {
        Ok(ExtractionResult::Entries(es)) => {
            assert_eq!(es.len(), 2);
        },
        _ => panic!("expected entries"),
    }
    assert!(matches!(
        handle_response(299, url, "<html></html>"),
        Ok(ExtractionResult::EmptyResult)
    ));
}

#[test]
fn url_and_filename_follow_the_asn() {
    assert_eq!(build_url("AS13335"), "https://whoisrequest.com/ip/AS13335");
    assert_eq!(
        output_filename("AS13335"),
        "AS13335_whoisrequest.com_CIDRs.txt"
    );
}
