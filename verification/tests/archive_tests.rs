use std::io::{Cursor, Write};

use openbim_mmc::{EntryKind, Limits, MmcArchive, MmcError, ValidationCode, LINK_MODEL_NAMESPACE, MMC_NAMESPACE};
use zip::{write::SimpleFileOptions, CompressionMethod, ZipWriter};

const MMC_NS: &str = "http://www.buildingsmart.org/multi-model/MMContainer/2.0.0";
const LINK_NS: &str = "http://www.buildingsmart.org/multi-model/LinkModel/2.0.0";
const UUID: &str = "4d69a342-31b6-4e80-9d05-83a28754c84d";

fn valid_multimodel(link_path: &str, model_path: &str) -> Vec<u8> {
    format!(
        r#"<?xml version="1.0" encoding="UTF-8"?>
<mmc:MultiModel xmlns:mmc="{MMC_NS}" uuid="{UUID}" formatVersion="2.0.0" mmDomain="urn:din:18290:test">
  <mmc:MetaData><mmc:Meta key="projectName" value="Bridge &amp; Road"/></mmc:MetaData>
  <mmc:ApplicationModels>
    <mmc:ApplicationModel id="model-ifc" modelType="IFC">
      <mmc:ModelData id="ifc-spf" formatType="IFC" formatVersion="IFC4">
        <mmc:DataRessource id="ifc-file" location="{model_path}"/>
      </mmc:ModelData>
    </mmc:ApplicationModel>
    <mmc:ApplicationModel id="model-gaeb" modelType="GAEB">
      <mmc:ModelData id="gaeb-xml" formatType="GAEB DA XML" formatVersion="3.3">
        <mmc:DataRessource id="gaeb-file" location="https://example.test/bill.xml"/>
      </mmc:ModelData>
    </mmc:ApplicationModel>
  </mmc:ApplicationModels>
  <mmc:LinkModels>
    <mmc:LinkModel location="{link_path}">
      <mmc:LinkedModel>model-ifc</mmc:LinkedModel>
      <mmc:LinkedModel>model-gaeb</mmc:LinkedModel>
    </mmc:LinkModel>
  </mmc:LinkModels>
</mmc:MultiModel>"#,
    )
    .into_bytes()
}

fn valid_link_model() -> Vec<u8> {
    format!(
        r#"<?xml version="1.0" encoding="UTF-8"?>
<l:LinkModel xmlns:l="{LINK_NS}" formatVersion="2.0.0">
  <l:MetaData><l:Meta k="role" v="quantity"/></l:MetaData>
  <l:Link>
    <l:Relatum m="model-ifc" id="2AbC" f="ifc-spf" r="ifc-file"/>
    <l:Relatum m="model-gaeb" id="item-1"/>
  </l:Link>
</l:LinkModel>"#,
    )
    .into_bytes()
}

fn zip(entries: &[(&str, &[u8])]) -> Vec<u8> {
    let mut output = Cursor::new(Vec::new());
    {
        let mut writer = ZipWriter::new(&mut output);
        let options = SimpleFileOptions::default()
            .compression_method(CompressionMethod::Deflated)
            .unix_permissions(0o100644);
        for (name, bytes) in entries {
            writer.start_file(*name, options).unwrap();
            writer.write_all(bytes).unwrap();
        }
        writer.finish().unwrap();
    }
    output.into_inner()
}

fn zip_with_mode(name: &str, bytes: &[u8], mode: u32) -> Vec<u8> {
    let mut output = Cursor::new(Vec::new());
    {
        let mut writer = ZipWriter::new(&mut output);
        let options = SimpleFileOptions::default()
            .compression_method(CompressionMethod::Stored)
            .unix_permissions(mode);
        writer.start_file(name, options).unwrap();
        writer.write_all(bytes).unwrap();
        writer.finish().unwrap();
    }
    let mut bytes = output.into_inner();
    let central = bytes
        .windows(4)
        .position(|window| window == b"PK\x01\x02")
        .expect("central directory");
    bytes[central + 5] = 3;
    bytes[central + 38..central + 42].copy_from_slice(&(mode << 16).to_le_bytes());
    bytes
}

fn zip_with_exact_duplicate_root(index: &[u8]) -> Vec<u8> {
    let mut bytes = zip(&[("MultiModel.xml", index), ("MultiModel.xMl", b"other")]);
    let old = b"MultiModel.xMl";
    let new = b"MultiModel.xml";
    let mut replacements = 0;
    for offset in 0..=bytes.len() - old.len() {
        if &bytes[offset..offset + old.len()] == old {
            bytes[offset..offset + old.len()].copy_from_slice(new);
            replacements += 1;
        }
    }
    assert_eq!(replacements, 2, "local and central ZIP names must be replaced");
    bytes
}

fn valid_archive() -> Vec<u8> {
    let index = valid_multimodel("links/elements.xml", "models/model.ifc");
    let links = valid_link_model();
    zip(&[
        ("MultiModel.xml", index.as_slice()),
        ("models/model.ifc", b"ISO-10303-21;ENDSEC;END-ISO-10303-21;"),
        ("links/elements.xml", links.as_slice()),
    ])
}

fn uuid_text(value: u128) -> String {
    uuid::Uuid::from_u128(value).to_string()
}

#[test]
fn opens_and_inspects_a_conformant_mmc_2_archive() {
    let bytes = valid_archive();
    let archive = MmcArchive::parse(&bytes).unwrap();

    assert_eq!(MMC_NAMESPACE, MMC_NS);
    assert_eq!(LINK_MODEL_NAMESPACE, LINK_NS);
    assert_eq!(uuid_text(archive.container().metadata.uuid), UUID);
    assert_eq!(archive.container().metadata.format_version, "2.0.0");
    assert_eq!(archive.container().models.len(), 2);
    assert_eq!(archive.container().link_models.len(), 1);

    let model = &archive.container().models[0];
    assert_eq!(model.id, "model-ifc");
    assert_eq!(
        model.representations[0].resources[0].location.embedded_path(),
        Some("models/model.ifc")
    );
    assert_eq!(archive.entry("models/model.ifc").unwrap().kind(), EntryKind::Payload);

    let links = archive.parsed_link_models();
    assert_eq!(links.len(), 1);
    assert_eq!(links[0].path(), "links/elements.xml");
    assert_eq!(links[0].model().format_version, "2.0.0");
    assert_eq!(links[0].model().links[0].relata.len(), 2);
    assert_eq!(links[0].model().links[0].relata[0].model_id, "model-ifc");
    assert_eq!(archive.entry("links/elements.xml").unwrap().kind(), EntryKind::LinkModel);
    assert!(archive.validate().is_valid(), "{:?}", archive.validate().issues());
}

#[test]
fn namespace_resolution_accepts_arbitrary_prefixes() {
    let index = valid_multimodel("links/elements.xml", "models/model.ifc");
    let index = String::from_utf8(index)
        .unwrap()
        .replace("mmc:", "x:")
        .replace("xmlns:mmc=", "xmlns:x=");
    let links = String::from_utf8(valid_link_model())
        .unwrap()
        .replace("l:", "different:")
        .replace("xmlns:l=", "xmlns:different=");
    let bytes = zip(&[
        ("MultiModel.xml", index.as_bytes()),
        ("models/model.ifc", b"ifc"),
        ("links/elements.xml", links.as_bytes()),
    ]);

    let archive = MmcArchive::parse(&bytes).unwrap();
    assert!(archive.validate().is_valid(), "{:?}", archive.validate().issues());
}

#[test]
fn preserves_unknown_xml_and_payload_bytes() {
    let index = format!(
        r#"<m:MultiModel xmlns:m="{}" xmlns:v="urn:vendor" uuid="{}" formatVersion="2.0.0" mmDomain="urn:vendor:test" v:flag="keep"><m:ApplicationModels/><m:LinkModels/><v:Private answer="42"/></m:MultiModel>"#,
        MMC_NS, UUID,
    );
    let original = zip(&[
        ("MultiModel.xml", index.as_bytes()),
        ("vendor/opaque.bin", b"\x00\xffprivate"),
    ]);

    let archive = MmcArchive::parse(&original).unwrap();
    assert_eq!(archive.original_bytes(), original);
    assert_eq!(archive.entry("MultiModel.xml").unwrap().bytes(), index.as_bytes());
    assert_eq!(archive.entry("vendor/opaque.bin").unwrap().bytes(), b"\x00\xffprivate");
}

#[test]
fn deterministic_writer_reopens_to_the_same_semantics() {
    let archive = MmcArchive::parse(&valid_archive()).unwrap();
    let first = archive.to_deterministic_bytes().unwrap();
    let second = archive.to_deterministic_bytes().unwrap();
    assert_eq!(first, second);

    let reopened = MmcArchive::parse(&first).unwrap();
    assert!(reopened.validate().is_valid());
    assert_eq!(
        reopened.entry("models/model.ifc").unwrap().bytes(),
        b"ISO-10303-21;ENDSEC;END-ISO-10303-21;"
    );
}

#[test]
fn semantic_validation_reports_missing_payloads_unknown_models_and_short_links() {
    let index = valid_multimodel("links/elements.xml", "models/missing.ifc");
    let links = format!(
        r#"<LinkModel xmlns="{}" formatVersion="2.0.0"><Link><Relatum m="not-declared" id="x"/></Link></LinkModel>"#,
        LINK_NS,
    );
    let bytes = zip(&[
        ("MultiModel.xml", index.as_slice()),
        ("links/elements.xml", links.as_bytes()),
    ]);
    let archive = MmcArchive::parse(&bytes).unwrap();
    let report = archive.validate();

    assert!(!report.is_valid());
    assert!(report.contains(ValidationCode::MissingEmbeddedResource));
    assert!(report.contains(ValidationCode::UnknownModelReference));
    assert!(report.contains(ValidationCode::LinkHasTooFewRelata));
}

#[test]
fn rejects_wrong_root_namespace_and_doctype() {
    let wrong = zip(&[("MultiModel.xml", br#"<MultiModel xmlns="urn:not-mmc"/>"#)]);
    assert!(MmcArchive::parse(&wrong).is_err());

    let doctype = zip(&[(
        "MultiModel.xml",
        br#"<!DOCTYPE x [<!ENTITY boom "x">]><x:MultiModel xmlns:x="http://www.buildingsmart.org/multi-model/MMContainer/2.0.0" uuid="4d69a342-31b6-4e80-9d05-83a28754c84d" formatVersion="2.0.0"><x:ApplicationModels/><x:LinkModels/></x:MultiModel>"#,
    )]);
    assert!(MmcArchive::parse(&doctype).is_err());
}

#[test]
fn required_root_attributes_are_strict() {
    let raw = valid_multimodel("links/elements.xml", "models/model.ifc");
    let valid = String::from_utf8(raw).unwrap();
    // A root without `mmDomain` is not among these cases: the schema test
    // `accepts_schema_minimum_without_domain_or_link_models` expects such a
    // root to parse, so `mmDomain` is optional.
    for malformed in [
        valid.replace(&format!(" uuid=\"{}\"", UUID), ""),
        valid.replace(" formatVersion=\"2.0.0\"", ""),
        valid.replace(UUID, "not-a-uuid"),
    ] {
        let bytes = zip(&[("MultiModel.xml", malformed.as_bytes())]);
        assert!(MmcArchive::parse(&bytes).is_err());
    }
}

#[test]
fn extension_elements_cannot_impersonate_standard_ancestors() {
    let raw = String::from_utf8(valid_multimodel("links/elements.xml", "models/model.ifc")).unwrap();
    let spoof = raw
        .replace("xmlns:mmc=", "xmlns:x=\"urn:extension\" xmlns:mmc=")
        .replace(
            "<mmc:ApplicationModels>",
            "<x:ApplicationModels><mmc:ApplicationModel id=\"evil\" modelType=\"spoof\"/></x:ApplicationModels><mmc:ApplicationModels>",
        );
    let archive = MmcArchive::parse(&zip(&[("MultiModel.xml", spoof.as_bytes())])).unwrap();
    assert_eq!(archive.container().models.len(), 2);
    assert!(archive.container().models.iter().all(|model| model.id != "evil"));
}

#[test]
fn required_nested_attributes_are_strict() {
    let raw = valid_multimodel("links/elements.xml", "models/model.ifc");
    let valid = String::from_utf8(raw).unwrap();
    for malformed in [
        valid.replace(" id=\"model-ifc\"", ""),
        valid.replace(" modelType=\"IFC\"", ""),
        valid.replace(" id=\"ifc-spf\"", ""),
        valid.replace(" formatType=\"IFC\"", ""),
        valid.replace(" id=\"ifc-file\"", ""),
        valid.replace(" location=\"models/model.ifc\"", ""),
    ] {
        let bytes = zip(&[("MultiModel.xml", malformed.as_bytes())]);
        assert!(MmcArchive::parse(&bytes).is_err());
    }
}

#[test]
fn malformed_standard_nesting_returns_an_error_instead_of_panicking() {
    let index = format!(
        r#"<m:MultiModel xmlns:m="{}" uuid="11111111-1111-4111-8111-111111111111" formatVersion="2.0.0" mmDomain="urn:test"><m:ModelData><m:MetaData><m:Meta key="k" value="v"/></m:MetaData></m:ModelData></m:MultiModel>"#,
        MMC_NS,
    );
    let bytes = zip(&[("MultiModel.xml", index.as_bytes())]);
    assert!(MmcArchive::parse(&bytes).is_err());
}

fn report(index: String, links: String) -> openbim_mmc::ValidationReport {
    let bytes = zip(&[
        ("MultiModel.xml", index.as_bytes()),
        ("models/model.ifc", b"ifc"),
        ("links/elements.xml", links.as_bytes()),
    ]);
    MmcArchive::parse(&bytes).unwrap().validate()
}

#[test]
fn requires_format_id_when_a_model_has_multiple_representations() {
    let index = String::from_utf8(valid_multimodel("links/elements.xml", "models/model.ifc"))
        .unwrap()
        .replacen(
            "</mmc:ApplicationModel>",
            "<mmc:ModelData id=\"ifc-alt\" formatType=\"IFCXML\"><mmc:DataRessource id=\"ifc-alt-file\" location=\"https://example.test/alt.xml\"/></mmc:ModelData></mmc:ApplicationModel>",
            1,
        );
    let links = String::from_utf8(valid_link_model())
        .unwrap()
        .replacen(" f=\"ifc-spf\" r=\"ifc-file\"", "", 1);
    assert!(report(index, links).contains(ValidationCode::MissingRepresentationDisambiguator));
}

#[test]
fn requires_resource_id_when_a_representation_has_multiple_resources() {
    let index = String::from_utf8(valid_multimodel("links/elements.xml", "models/model.ifc"))
        .unwrap()
        .replacen(
            "</mmc:ModelData>",
            "<mmc:DataRessource id=\"ifc-alt-file\" location=\"https://example.test/alt.ifc\"/></mmc:ModelData>",
            1,
        );
    let links = String::from_utf8(valid_link_model())
        .unwrap()
        .replacen(" r=\"ifc-file\"", "", 1);
    assert!(report(index, links).contains(ValidationCode::MissingResourceDisambiguator));
}

fn is_limit(result: Result<MmcArchive, MmcError>) {
    assert!(matches!(result, Err(MmcError::LimitExceeded { .. })));
}

#[test]
fn enforces_model_link_model_link_and_relatum_budgets() {
    let bytes = valid_archive();
    is_limit(MmcArchive::parse_with_limits(&bytes, Limits { max_models: 1, ..Limits::default() }));
    is_limit(MmcArchive::parse_with_limits(&bytes, Limits { max_link_models: 0, ..Limits::default() }));
    is_limit(MmcArchive::parse_with_limits(&bytes, Limits { max_links: 0, ..Limits::default() }));
    is_limit(MmcArchive::parse_with_limits(&bytes, Limits { max_linked_elements: 1, ..Limits::default() }));
}

#[test]
fn enforces_total_size_and_compression_ratio_budgets() {
    let bytes = valid_archive();
    is_limit(MmcArchive::parse_with_limits(
        &bytes,
        Limits { max_total_uncompressed_bytes: 32, ..Limits::default() },
    ));

    let index = valid_multimodel("links/elements.xml", "models/model.ifc");
    let repeated = vec![b'x'; 100_000];
    let compressed = zip(&[
        ("MultiModel.xml", index.as_slice()),
        ("models/model.ifc", repeated.as_slice()),
    ]);
    is_limit(MmcArchive::parse_with_limits(
        &compressed,
        Limits { max_compression_ratio: 10, ..Limits::default() },
    ));
}

#[test]
fn malformed_xml_bytes_never_panic() {
    let index = valid_multimodel("links/elements.xml", "models/model.ifc");
    for offset in (0..index.len()).step_by(7) {
        let mut mutated = index.clone();
        mutated[offset] ^= 0xff;
        let bytes = zip(&[("MultiModel.xml", mutated.as_slice())]);
        let _ = MmcArchive::parse(&bytes);
    }

    let valid_index = valid_multimodel("links/elements.xml", "models/model.ifc");
    let link = valid_link_model();
    for offset in (0..link.len()).step_by(5) {
        let mut mutated = link.clone();
        mutated[offset] ^= 0xff;
        let bytes = zip(&[
            ("MultiModel.xml", valid_index.as_slice()),
            ("models/model.ifc", b"ifc"),
            ("links/elements.xml", mutated.as_slice()),
        ]);
        let _ = MmcArchive::parse(&bytes);
    }
}

#[test]
fn accepts_schema_minimum_without_domain_or_link_models() {
    let xml = format!(
        r#"<m:MultiModel xmlns:m="{}" uuid="11111111-1111-4111-8111-111111111111" formatVersion="2.0.0"><m:ApplicationModels><m:ApplicationModel id="one:model" modelType="custom"><m:ModelData id="format one" formatType="opaque"><m:DataRessource id="resource one" location="https://example.test/model.bin"/></m:ModelData></m:ApplicationModel></m:ApplicationModels></m:MultiModel>"#,
        MMC_NS,
    );
    let archive = MmcArchive::parse(&zip(&[("MultiModel.xml", xml.as_bytes())])).unwrap();
    assert!(archive.validate().is_valid());
    assert!(archive.container().metadata.mm_domain.is_none());
}

#[test]
fn reports_schema_version_mismatches() {
    let xml = String::from_utf8(valid_multimodel("links/elements.xml", "models/model.ifc"))
        .unwrap()
        .replace("formatVersion=\"2.0.0\"", "formatVersion=\"9.0\"");
    let links = valid_link_model();
    let bytes = zip(&[("MultiModel.xml", xml.as_bytes()), ("links/elements.xml", links.as_slice())]);
    let report = MmcArchive::parse(&bytes).unwrap().validate();
    assert!(report.contains(ValidationCode::UnsupportedFormatVersion));
}

#[test]
fn reports_duplicate_metadata_keys_within_a_category() {
    let xml = String::from_utf8(valid_multimodel("links/elements.xml", "models/model.ifc"))
        .unwrap()
        .replace(
            "<mmc:ApplicationModels>",
            "<mmc:MetaData><mmc:Meta key=\"k\" value=\"1\" category=\"c\"/><mmc:Meta key=\"k\" value=\"2\" category=\"c\"/></mmc:MetaData><mmc:ApplicationModels>",
        );
    let links = valid_link_model();
    let bytes = zip(&[("MultiModel.xml", xml.as_bytes()), ("links/elements.xml", links.as_slice())]);
    let report = MmcArchive::parse(&bytes).unwrap().validate();
    assert!(report.contains(ValidationCode::DuplicateMetadataKey));
}

#[test]
fn rejects_unsafe_archive_names_and_ambiguous_normalization() {
    for name in [
        "/absolute.ifc",
        "../escape.ifc",
        "models/../escape.ifc",
        "models\\escape.ifc",
        "a:b.ifc",
        "NUL",
        "dir/COM1.txt",
        "trail.",
        "trail ",
        "models//escape.ifc",
        "models/",
        "./models/a.ifc",
    ] {
        let index = valid_multimodel("links/elements.xml", "models/model.ifc");
        let bytes = zip(&[("MultiModel.xml", index.as_slice()), (name, b"x")]);
        let error = MmcArchive::parse(&bytes).unwrap_err();
        assert!(matches!(error, MmcError::UnsafeArchivePath { .. }), "{name}: {error:?}");
    }
}

#[test]
fn rejects_duplicate_and_case_folded_archive_names() {
    let index = valid_multimodel("links/elements.xml", "models/model.ifc");
    let exact = zip_with_exact_duplicate_root(&index);
    assert!(MmcArchive::parse(&exact).is_err());

    for duplicate in ["multimodel.xml", "MULTIMODEL.XML"] {
        let bytes = zip(&[("MultiModel.xml", index.as_slice()), (duplicate, b"other")]);
        let error = MmcArchive::parse(&bytes).unwrap_err();
        assert!(matches!(error, MmcError::DuplicateArchivePath { .. }));
    }
}

#[test]
fn requires_one_exact_root_multimodel_xml() {
    for path in ["nested/MultiModel.xml", "MultiModel.XML", "Index.rdf"] {
        let bytes = zip(&[(path, b"<x/>")]);
        let error = MmcArchive::parse(&bytes).unwrap_err();
        assert!(matches!(error, MmcError::MissingRoot));
    }
}

#[test]
fn rejects_xml_1_0_forbidden_characters() {
    let valid = String::from_utf8(valid_multimodel("links/elements.xml", "models/model.ifc")).unwrap();
    for value in ["IF\0C", "IF&#0;C"] {
        let xml = valid.replace("modelType=\"IFC\"", &format!("modelType=\"{value}\""));
        let bytes = zip(&[("MultiModel.xml", xml.as_bytes())]);
        assert!(matches!(MmcArchive::parse(&bytes), Err(MmcError::Xml { .. })));
    }
}

#[test]
fn rejects_symbolic_link_zip_entries() {
    let bytes = zip_with_mode("link", b"MultiModel.xml", 0o120777);
    assert!(matches!(MmcArchive::parse(&bytes), Err(MmcError::UnsafeArchivePath { .. })));
}

#[test]
fn rejects_wrong_xml_root_namespace_and_doctype() {
    for xml in [
        b"<MultiModel xmlns=\"urn:not:mmc\" uuid=\"11111111-1111-4111-8111-111111111111\" formatVersion=\"2.0.0\" mmDomain=\"urn:test\"><ApplicationModels/><LinkModels/></MultiModel>".as_slice(),
        b"<!DOCTYPE MultiModel [<!ENTITY x \"boom\">]><MultiModel xmlns=\"http://www.buildingsmart.org/multi-model/MMContainer/2.0.0\" uuid=\"11111111-1111-4111-8111-111111111111\" formatVersion=\"2.0.0\" mmDomain=\"urn:test\"><ApplicationModels/><LinkModels/></MultiModel>".as_slice(),
    ] {
        let bytes = zip(&[("MultiModel.xml", xml)]);
        let error = MmcArchive::parse(&bytes).unwrap_err();
        assert!(matches!(error, MmcError::Xml { .. }));
    }
}

#[test]
fn enforces_entry_archive_and_xml_budgets() {
    let valid = valid_archive();

    let limits = Limits { max_archive_bytes: valid.len() - 1, ..Limits::default() };
    assert!(matches!(MmcArchive::parse_with_limits(&valid, limits), Err(MmcError::LimitExceeded { .. })));

    let limits = Limits { max_entries: 2, ..Limits::default() };
    assert!(matches!(MmcArchive::parse_with_limits(&valid, limits), Err(MmcError::LimitExceeded { .. })));

    let limits = Limits { max_entry_bytes: 8, ..Limits::default() };
    assert!(matches!(MmcArchive::parse_with_limits(&valid, limits), Err(MmcError::LimitExceeded { .. })));

    let limits = Limits { max_xml_events: 2, ..Limits::default() };
    assert!(matches!(MmcArchive::parse_with_limits(&valid, limits), Err(MmcError::LimitExceeded { .. })));
}

#[test]
fn reports_duplicate_ids_and_unsafe_or_invalid_locations() {
    let raw = valid_multimodel("links/elements.xml", "models/model.ifc");
    let index = String::from_utf8(raw)
        .unwrap()
        .replace("id=\"model-gaeb\"", "id=\"model-ifc\"")
        .replace("https://example.test/bill.xml", "https://exa mple.test/bill.xml")
        .replace("models/model.ifc", "../model.ifc");
    let links = valid_link_model();
    let bytes = zip(&[("MultiModel.xml", index.as_bytes()), ("links/elements.xml", links.as_slice())]);
    let archive = MmcArchive::parse(&bytes).unwrap();
    let report = archive.validate();
    assert!(report.contains(ValidationCode::DuplicateModelId));
    assert!(
        report
            .issues()
            .iter()
            .filter(|issue| issue.code == ValidationCode::InvalidResourceLocation)
            .count()
            >= 2
    );
}

#[test]
fn reports_unknown_representation_resource_and_rate_targets() {
    let index = valid_multimodel("links/elements.xml", "models/model.ifc");
    let links = String::from_utf8(valid_link_model())
        .unwrap()
        .replace("f=\"ifc-spf\"", "f=\"missing-format\"")
        .replace("r=\"ifc-file\"", "r=\"missing-resource\"")
        .replace(
            "<l:Relatum m=\"model-gaeb\" id=\"item-1\"/>",
            "<l:Relatum m=\"model-gaeb\" id=\"item-1\"><l:Rate t=\"weight\" v=\"1\" m=\"missing-model\"/></l:Relatum>",
        );
    let bytes = zip(&[
        ("MultiModel.xml", index.as_slice()),
        ("models/model.ifc", b"ifc"),
        ("links/elements.xml", links.as_bytes()),
    ]);
    let archive = MmcArchive::parse(&bytes).unwrap();
    let report = archive.validate();
    assert!(report.contains(ValidationCode::UnknownRepresentationReference));
    assert!(report.contains(ValidationCode::RateTargetsUnknownModel));
}

#[test]
fn reports_duplicate_link_locations() {
    let raw = String::from_utf8(valid_multimodel("links/elements.xml", "models/model.ifc")).unwrap();
    let invalid = raw.replace("id=\"model-ifc\"", "id=\"bad:id\"").replace(
        "</mmc:LinkModels>",
        "<mmc:LinkModel location=\"links/elements.xml\"><mmc:LinkedModel>bad:id</mmc:LinkedModel><mmc:LinkedModel>model-gaeb</mmc:LinkedModel></mmc:LinkModel></mmc:LinkModels>",
    );
    let links = valid_link_model();
    let bytes = zip(&[("MultiModel.xml", invalid.as_bytes()), ("links/elements.xml", links.as_slice())]);
    let report = MmcArchive::parse(&bytes).unwrap().validate();
    assert!(report.contains(ValidationCode::DuplicateLinkModelLocation));
}
