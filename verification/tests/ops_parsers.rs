use patent_tagger::ops::biblio::{format_ops_date, parse as parse_biblio};
use patent_tagger::ops::error::{from_error_body, OpsError};
use patent_tagger::ops::fulltext::{parse_claims, parse_description, parse_inquiry, FulltextInstance, FulltextPart};
use patent_tagger::ops::images::{
    apply_orientation, find_drawing, find_first_page_clipping, parse_images_inquiry, to_grey_bytes, TiffPixels,
};
use patent_tagger::ops::search::{parse as parse_search, path, percent_encode};

const BIBLIO: &str = r#"<?xml version="1.0" encoding="UTF-8"?>
<ops:world-patent-data xmlns:ops="http://ops.epo.org" xmlns="http://www.epo.org/exchange">
  <exchange-documents>
    <exchange-document system="ops.epo.org" family-id="19768124" country="EP" doc-number="1000000" kind="A1">
      <bibliographic-data>
        <publication-reference>
          <document-id document-id-type="docdb">
            <country>EP</country><doc-number>1000000</doc-number><kind>A1</kind><date>20000517</date>
          </document-id>
        </publication-reference>
        <classification-ipc><text> B28B1/29 </text><text>B28B7/00</text></classification-ipc>
        <patent-classifications>
          <patent-classification>
            <section>B</section><class>28</class><subclass>B</subclass><main-group>1</main-group><subgroup>29</subgroup>
          </patent-classification>
        </patent-classifications>
        <application-reference>
          <document-id document-id-type="docdb"><country>EP</country><doc-number>99203729</doc-number></document-id>
          <document-id document-id-type="epodoc"><doc-number>EP19990203729</doc-number></document-id>
        </application-reference>
        <parties>
          <applicants>
            <applicant data-format="epodoc"><applicant-name><name> ACME CORP </name></applicant-name></applicant>
            <applicant data-format="original"><applicant-name><name>Acme Corp.</name></applicant-name></applicant>
          </applicants>
        </parties>
        <invention-title lang="de">Vorrichtung</invention-title>
        <invention-title lang="en">Apparatus for bricks</invention-title>
      </bibliographic-data>
      <abstract lang="en"><p>[0001] First.</p><p>Second.</p></abstract>
    </exchange-document>
    <exchange-document country="WO" doc-number="2019123456" kind="A1">
      <bibliographic-data>
        <application-reference>
          <document-id document-id-type="docdb"><country>WO</country><doc-number>2018000001</doc-number></document-id>
        </application-reference>
      </bibliographic-data>
    </exchange-document>
  </exchange-documents>
</ops:world-patent-data>"#;

#[test]
fn path_encodes_the_query_and_puts_the_range_in_a_parameter() {
    assert_eq!(
        path("pa=\"Siemens AG\" and pd>=2023", 101, 200),
        "/published-data/search/biblio?q=pa%3D%22Siemens%20AG%22%20and%20pd%3E%3D2023&Range=101-200"
    );
}

#[test]
fn percent_encode_takes_utf8_bytes() {
    assert_eq!(percent_encode("a-b.c_d~e"), "a-b.c_d~e");
    assert_eq!(percent_encode("é"), "%C3%A9");
    assert_eq!(percent_encode("€"), "%E2%82%AC");
    assert_eq!(percent_encode("𝛼"), "%F0%9D%9B%BC");
    assert_eq!(percent_encode(""), "");
}

#[test]
fn extracts_message_from_error_xml() {
    let err = from_error_body(401, "<error><code>401</code><message>ClientId is Invalid</message></error>");
    match err {
        OpsError::Api { status, message } => {
            assert_eq!(status, 401);
            assert_eq!(message, "ClientId is Invalid");
        }
        other => panic!("expected Api error, got {other:?}"),
    }
}

#[test]
fn falls_back_to_raw_body_when_not_xml() {
    let err = from_error_body(500, "internal server error");
    match err {
        OpsError::Api { status, message } => {
            assert_eq!(status, 500);
            assert_eq!(message, "internal server error");
        }
        other => panic!("expected Api error, got {other:?}"),
    }
}

#[test]
fn error_body_without_a_message_element_is_kept_whole() {
    match from_error_body(404, "  <fault><code>404</code></fault>\n") {
        OpsError::Api { message, .. } => assert_eq!(message, "<fault><code>404</code></fault>"),
        other => panic!("expected Api error, got {other:?}"),
    }
}

#[test]
fn biblio_reads_each_exchange_document() {
    let pubs = parse_biblio(BIBLIO).unwrap();
    assert_eq!(pubs.len(), 2);
    let p = &pubs[0];
    assert_eq!(p.docdb_id, "EP.1000000.A1");
    assert_eq!(p.family_id.as_deref(), Some("19768124"));
    assert_eq!(p.application_number.as_deref(), Some("EP19990203729"));
    assert_eq!(p.publication_date.as_deref(), Some("2000-05-17"));
    assert_eq!(p.title("en"), Some("Apparatus for bricks"));
    assert_eq!(p.title("de"), Some("Vorrichtung"));
    assert_eq!(p.title("fr"), None);
    assert_eq!(p.abstract_text("en"), Some("[0001] First.\nSecond."));
    assert_eq!(p.applicants, vec!["ACME CORP".to_string()]);
    assert_eq!(p.ipc, vec!["B28B1/29".to_string(), "B28B7/00".to_string()]);
    assert_eq!(p.cpc, vec!["B28B1/29".to_string()]);

    let wo = &pubs[1];
    assert_eq!(wo.country, "WO");
    assert_eq!(wo.doc_number, "2019123456");
    assert_eq!(wo.application_number.as_deref(), Some("WO2018000001"));
    assert!(wo.abstracts.is_empty());
    assert_eq!(wo.family_id, None);
}

#[test]
fn biblio_reports_a_missing_number_and_invalid_xml() {
    let missing = "<r><exchange-document country=\"EP\" kind=\"A1\"/></r>";
    match parse_biblio(missing) {
        Err(OpsError::Parse(m)) => assert_eq!(m, "missing @doc-number on <exchange-document>"),
        other => panic!("expected a parse error, got {other:?}"),
    }
    assert!(matches!(parse_biblio("<unclosed>"), Err(OpsError::Parse(m)) if m.starts_with("invalid XML: ")));
    assert!(parse_biblio("<fault><code>404</code></fault>").unwrap().is_empty());
}

#[test]
fn ops_dates_need_eight_digits() {
    assert_eq!(format_ops_date("20000517").as_deref(), Some("2000-05-17"));
    assert_eq!(format_ops_date("2000517"), None);
    assert_eq!(format_ops_date("2000051x"), None);
}

#[test]
fn search_page_has_the_total_and_the_publications() {
    let xml = "<ops:world-patent-data xmlns:ops=\"http://ops.epo.org\"><ops:biblio-search total-result-count=\"2009\">\
               <exchange-document country=\"EP\" doc-number=\"1\" kind=\"A1\"/></ops:biblio-search></ops:world-patent-data>";
    let page = parse_search(xml).unwrap();
    assert_eq!(page.total_results, 2009);
    assert_eq!(page.publications.len(), 1);
    assert_eq!(page.publications[0].docdb_id, "EP.1.A1");
}

#[test]
fn a_search_response_without_a_total_is_a_parse_error() {
    match parse_search("<fault><message>too far</message></fault>") {
        Err(OpsError::Parse(m)) => assert_eq!(m, "search response without total-result-count"),
        other => panic!("expected a parse error, got {other:?}"),
    }
}

#[test]
fn fulltext_inquiry_lists_parts_and_languages() {
    let xml = "<r><fulltext-instance desc=\"description\" lang=\"EN\"/><fulltext-instance desc=\"claims\" lang=\"EN\"/>\
               <fulltext-instance desc=\"drawings\" lang=\"EN\"/><fulltext-instance desc=\"claims\"/></r>";
    assert_eq!(
        parse_inquiry(xml).unwrap(),
        vec![
            FulltextInstance { lang: "EN".to_string(), part: FulltextPart::Description },
            FulltextInstance { lang: "EN".to_string(), part: FulltextPart::Claims },
        ]
    );
    assert!(parse_inquiry("<fault/>").unwrap().is_empty());
}

#[test]
fn description_paragraphs_are_lines_with_normalised_whitespace() {
    let xml = "<r><description lang=\"DE\"><p>Nur Deutsch.</p></description>\
               <description lang=\"EN\"><p>[0001]   The  invention\n relates.</p><p><tables/>x</p></description></r>";
    let (lang, text) = parse_description(xml, "en").unwrap().unwrap();
    assert_eq!(lang, "EN");
    assert_eq!(text, "[0001] The invention relates.\n[Table 2 not reproduced]");
    let (lang, text) = parse_description(xml, "de").unwrap().unwrap();
    assert_eq!((lang.as_str(), text.as_str()), ("DE", "Nur Deutsch."));
    assert_eq!(parse_description(xml, "fr").unwrap(), None);
}

#[test]
fn claims_are_one_per_line_whatever_wraps_them() {
    let xml = "<r><claims lang=\"EN\"><claim><claim-text>1. A device.</claim-text><claim-text>2. The device of claim 1.</claim-text></claim>\
               <claim><claim-text>3. <maths/>Formula.</claim-text></claim></claims></r>";
    let (lang, text) = parse_claims(xml, "EN").unwrap().unwrap();
    assert_eq!(lang, "EN");
    assert_eq!(text, "1. A device.\n2. The device of claim 1.\n[Formula not reproduced]");
    assert_eq!(parse_claims(xml, "de").unwrap(), None);
}

#[test]
fn images_inquiry_lists_instances() {
    let xml = "<r><document-instance desc=\"FullDocument\" link=\"a\" number-of-pages=\"12\"/>\
               <document-instance desc=\"Drawing\" link=\"published-data/images/EP/1000000/A1/thumbnail\" number-of-pages=\"6\"/>\
               <document-instance desc=\"FirstPageClipping\" link=\"c\" number-of-pages=\"1\"/>\
               <document-instance desc=\"Broken\" link=\"d\" number-of-pages=\"many\"/></r>";
    let instances = parse_images_inquiry(xml).unwrap();
    assert_eq!(instances.len(), 3);
    let drawing = find_drawing(&instances).unwrap();
    assert_eq!(drawing.number_of_pages, 6);
    assert_eq!(drawing.link, "published-data/images/EP/1000000/A1/thumbnail");
    assert_eq!(find_first_page_clipping(&instances).unwrap().number_of_pages, 1);
    assert!(find_drawing(&instances[..1]).is_none());
}

#[test]
fn packed_bilevel_rows_are_unpacked() {
    // Two rows of 3 pixels, each row padded to one byte.
    let grey = to_grey_bytes(TiffPixels::U8(vec![0b1010_0000, 0b0110_0000]), 3, 2).unwrap();
    assert_eq!(grey, vec![255, 0, 255, 0, 255, 255]);
    let same = to_grey_bytes(TiffPixels::U8(vec![1, 2, 3, 4]), 2, 2).unwrap();
    assert_eq!(same, vec![1, 2, 3, 4]);
    match to_grey_bytes(TiffPixels::Other("U16([1])".to_string()), 1, 1) {
        Err(OpsError::Parse(m)) => assert_eq!(m, "unsupported TIFF pixel format: U16([1])"),
        other => panic!("expected a parse error, got {other:?}"),
    }
}

#[test]
fn orientation_rotates_and_mirrors() {
    // 3 by 2:  1 2 3 / 4 5 6
    let g = vec![1, 2, 3, 4, 5, 6];
    assert_eq!(apply_orientation(3, 2, g.clone(), 1), (3, 2, g.clone()));
    assert_eq!(apply_orientation(3, 2, g.clone(), 2), (3, 2, vec![3, 2, 1, 6, 5, 4]));
    assert_eq!(apply_orientation(3, 2, g.clone(), 3), (3, 2, vec![6, 5, 4, 3, 2, 1]));
    assert_eq!(apply_orientation(3, 2, g.clone(), 4), (3, 2, vec![4, 5, 6, 1, 2, 3]));
    assert_eq!(apply_orientation(3, 2, g.clone(), 5), (2, 3, vec![1, 4, 2, 5, 3, 6]));
    assert_eq!(apply_orientation(3, 2, g.clone(), 6), (2, 3, vec![4, 1, 5, 2, 6, 3]));
    assert_eq!(apply_orientation(3, 2, g.clone(), 7), (2, 3, vec![6, 3, 5, 2, 4, 1]));
    assert_eq!(apply_orientation(3, 2, g.clone(), 8), (2, 3, vec![3, 6, 2, 5, 1, 4]));
    assert_eq!(apply_orientation(3, 2, g.clone(), 9), (3, 2, g));
}

#[test]
fn biblio_titles_come_in_the_order_of_their_languages() {
    let pubs = parse_biblio(BIBLIO).unwrap();
    let xml = BIBLIO.replace(
        "<invention-title lang=\"de\">Vorrichtung</invention-title>\n        <invention-title lang=\"en\">Apparatus for bricks</invention-title>",
        "<invention-title lang=\"en\">Apparatus for bricks</invention-title>\n        <invention-title lang=\"de\">Vorrichtung</invention-title>",
    );
    assert_ne!(xml, BIBLIO);
    let swapped = parse_biblio(&xml).unwrap();
    let langs: Vec<&str> = swapped[0].titles.iter().map(|(l, _)| l.as_str()).collect();
    assert_eq!(langs, vec!["de", "en"]);
    assert_eq!(swapped[0].titles, pubs[0].titles);
}
