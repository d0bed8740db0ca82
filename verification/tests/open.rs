use reticle_app::open::{choose_top_cell, finish_open, looks_like_conformant_oasis, reader_for, DocFormat, Imported, OpenError, OpenWarning, Reader};

#[test]
fn looks_like_conformant_oasis_matches_only_the_real_magic() {
    assert!(looks_like_conformant_oasis(b"%SEMI-OASIS\r\nrest"));
    assert!(!looks_like_conformant_oasis(b"RETICLE-OASIS\0rest"));
    assert!(!looks_like_conformant_oasis(b"garbage"));
    assert!(!looks_like_conformant_oasis(b""));
    // A prefix of the magic is not a match (must be the whole 13 bytes).
    assert!(!looks_like_conformant_oasis(b"%SEMI-OASIS"));
}

#[test]
fn format_from_extension_is_case_insensitive() {
    assert_eq!(DocFormat::from_extension("chip.gds"), Some(DocFormat::Gds));
    assert_eq!(DocFormat::from_extension("CHIP.GDS"), Some(DocFormat::Gds));
    assert_eq!(DocFormat::from_extension("x.oas"), Some(DocFormat::Oasis));
    assert_eq!(DocFormat::from_extension("readme.txt"), None);
    assert_eq!(DocFormat::from_extension("noext"), None);
}

#[test]
fn format_from_extension_recognizes_cif_and_dxf() {
    assert_eq!(DocFormat::from_extension("part.cif"), Some(DocFormat::Cif));
    assert_eq!(DocFormat::from_extension("PART.CIF"), Some(DocFormat::Cif));
    assert_eq!(DocFormat::from_extension("part.dxf"), Some(DocFormat::Dxf));
    assert_eq!(DocFormat::from_extension("PART.DXF"), Some(DocFormat::Dxf));
}

#[test]
fn every_format_labels_cleanly() {
    assert_eq!(DocFormat::Gds.label(), "GDSII");
    assert_eq!(DocFormat::Oasis.label(), "OASIS");
    assert_eq!(DocFormat::Cif.label(), "CIF");
    assert_eq!(DocFormat::Dxf.label(), "DXF");
}

#[test]
fn oasis_hint_is_routed_by_content() {
    assert_eq!(reader_for(DocFormat::Oasis, b"%SEMI-OASIS\r\n..."), Reader::ConformantOasis);
    assert_eq!(reader_for(DocFormat::Oasis, b"RETICLE-OASIS"), Reader::InHouseOasis);
    assert_eq!(reader_for(DocFormat::Gds, b"%SEMI-OASIS\r\n"), Reader::Gds);
    assert_eq!(reader_for(DocFormat::Dxf, b""), Reader::Dxf);
}

#[test]
fn extension_is_what_follows_the_last_dot() {
    assert_eq!(DocFormat::from_extension("a.gds.oasis"), Some(DocFormat::Oasis));
    assert_eq!(DocFormat::from_extension("gds"), None);
    assert_eq!(DocFormat::from_extension("chip.gds."), None);
    assert_eq!(DocFormat::from_extension("x.Gds2"), Some(DocFormat::Gds));
}

#[test]
fn open_errors_read_cleanly() {
    let e = OpenError::Import { format: DocFormat::Cif, reason: "bad header".to_owned() };
    assert_eq!(e.message(), "could not open CIF file: bad header");
    assert_eq!(
        OpenError::Empty { format: DocFormat::Gds }.message(),
        "the GDSII file opened but contains no cells"
    );
}

fn names(list: &[&str]) -> Vec<String> {
    list.iter().map(|s| s.to_string()).collect()
}

#[test]
fn top_cell_prefers_the_declared_top_then_the_first_name() {
    assert_eq!(choose_top_cell(&names(&["TOP", "A"]), &names(&["B", "A", "TOP"])), "TOP");
    assert_eq!(choose_top_cell(&[], &names(&["zeta", "Alpha", "beta"])), "Alpha");
    assert_eq!(choose_top_cell(&[], &names(&["ab", "a", "abc"])), "a");
    assert_eq!(choose_top_cell(&[], &[]), "");
}

#[test]
fn finish_open_reports_import_failures_and_empty_documents() {
    let err = finish_open(DocFormat::Dxf, Err("truncated".to_owned()));
    assert_eq!(err, Err(OpenError::Import { format: DocFormat::Dxf, reason: "truncated".to_owned() }));
    let empty = Imported { top_cells: vec![], cell_names: vec![], warnings: vec![] };
    assert_eq!(finish_open(DocFormat::Gds, Ok(empty)), Err(OpenError::Empty { format: DocFormat::Gds }));
    let warning = OpenWarning { summary: "clamped".to_owned(), detail: "a width".to_owned() };
    let doc = Imported {
        top_cells: vec![],
        cell_names: names(&["CHIP", "BLOCK"]),
        warnings: vec![warning.clone()],
    };
    let opened = finish_open(DocFormat::Cif, Ok(doc)).expect("opens");
    assert_eq!(opened.top_cell, "BLOCK");
    assert!(opened.has_warnings());
    assert_eq!(opened.warnings, vec![warning]);
}

#[test]
fn a_bare_extension_word_is_not_a_file_name_with_an_extension() {
    assert_eq!(DocFormat::from_extension("gds"), None);
    assert_eq!(DocFormat::from_extension("OASIS"), None);
    assert_eq!(DocFormat::from_extension(".gds"), Some(DocFormat::Gds));
    assert_eq!(DocFormat::from_extension("a.b.dxf"), Some(DocFormat::Dxf));
    assert_eq!(DocFormat::from_extension("chip."), None);
}
