use std::io::{Cursor, Write};

use openbim_mmc::path::{ancestor_components, collision_key, validate_archive_path};
use openbim_mmc::validation::issues_debug;
use openbim_mmc::ValidationIssue;
use openbim_mmc::{DataResource, LinkModelReference, ModelData, ResourceLocation};
use openbim_mmc::{Link, MetadataEntry, Rate, Relatum};
use openbim_mmc::{
    ApplicationModel, ContainerMetadata, EntryKind, Limits, LinkModel, MmcArchive, MmcArchiveBuilder, MmcError,
    ValidationCode,
};
use zip::{write::SimpleFileOptions, CompressionMethod, ZipWriter};

const MMC_NS: &str = "http://www.buildingsmart.org/multi-model/MMContainer/2.0.0";
const LINK_NS: &str = "http://www.buildingsmart.org/multi-model/LinkModel/2.0.0";
const UUID: &str = "4d69a342-31b6-4e80-9d05-83a28754c84d";

fn valid_multimodel(link_path: &str, model_path: &str) -> Vec<u8> {
    format!(
        r#"<?xml version="1.0" encoding="UTF-8"?>
<mmc:MultiModel xmlns:mmc="{MMC_NS}" uuid="{UUID}" formatVersion="2.0.0" mmDomain="urn:din:18290:test">
  <mmc:MetaData><mmc:Meta key="projectName" value="Bridge &amp; Road"/></mmc:MetaData>
  <mmc:ApplicationModels>
    <mmc:ApplicationModel id="model-ifc" modelType="IFC">
      <mmc:ModelData id="ifc-spf" formatType="IFC" formatVersion="IFC4">
        <mmc:DataRessource id="ifc-file" location="{model_path}"/>
      </mmc:ModelData>
    </mmc:ApplicationModel>
    <mmc:ApplicationModel id="model-gaeb" modelType="GAEB">
      <mmc:ModelData id="gaeb-xml" formatType="GAEB DA XML" formatVersion="3.3">
        <mmc:DataRessource id="gaeb-file" location="https://example.test/bill.xml"/>
      </mmc:ModelData>
    </mmc:ApplicationModel>
  </mmc:ApplicationModels>
  <mmc:LinkModels>
    <mmc:LinkModel location="{link_path}">
      <mmc:LinkedModel>model-ifc</mmc:LinkedModel>
      <mmc:LinkedModel>model-gaeb</mmc:LinkedModel>
    </mmc:LinkModel>
  </mmc:LinkModels>
</mmc:MultiModel>"#,
    )
    .into_bytes()
}

fn valid_link_model() -> Vec<u8> {
    format!(
        r#"<?xml version="1.0" encoding="UTF-8"?>
<l:LinkModel xmlns:l="{LINK_NS}" formatVersion="2.0.0">
  <l:MetaData><l:Meta k="role" v="quantity"/></l:MetaData>
  <l:Link>
    <l:Relatum m="model-ifc" id="2AbC" f="ifc-spf" r="ifc-file"/>
    <l:Relatum m="model-gaeb" id="item-1"/>
  </l:Link>
</l:LinkModel>"#,
    )
    .into_bytes()
}

fn zip(entries: &[(&str, &[u8])]) -> Vec<u8> {
    let mut output = Cursor::new(Vec::new());
    {
        let mut writer = ZipWriter::new(&mut output);
        let options = SimpleFileOptions::default()
            .compression_method(CompressionMethod::Deflated)
            .unix_permissions(0o100644);
        for (name, bytes) in entries {
            writer.start_file(*name, options).unwrap();
            writer.write_all(bytes).unwrap();
        }
        writer.finish().unwrap();
    }
    output.into_inner()
}

fn zip_with_mode(name: &str, bytes: &[u8], mode: u32) -> Vec<u8> {
    let mut output = Cursor::new(Vec::new());
    {
        let mut writer = ZipWriter::new(&mut output);
        let options = SimpleFileOptions::default()
            .compression_method(CompressionMethod::Stored)
            .unix_permissions(mode);
        writer.start_file(name, options).unwrap();
        writer.write_all(bytes).unwrap();
        writer.finish().unwrap();
    }
    let mut bytes = output.into_inner();
    let central = bytes
        .windows(4)
        .position(|window| window == b"PK\x01\x02")
        .expect("central directory");
    bytes[central + 5] = 3;
    bytes[central + 38..central + 42].copy_from_slice(&(mode << 16).to_le_bytes());
    bytes
}

fn zip_with_exact_duplicate_root(index: &[u8]) -> Vec<u8> {
    let mut bytes = zip(&[("MultiModel.xml", index), ("MultiModel.xMl", b"other")]);
    let old = b"MultiModel.xMl";
    let new = b"MultiModel.xml";
    let mut replacements = 0;
    for offset in 0..=bytes.len() - old.len() {
        if &bytes[offset..offset + old.len()] == old {
            bytes[offset..offset + old.len()].copy_from_slice(new);
            replacements += 1;
        }
    }
    assert_eq!(replacements, 2, "local and central ZIP names must be replaced");
    bytes
}

fn valid_archive() -> Vec<u8> {
    let index = valid_multimodel("links/elements.xml", "models/model.ifc");
    let links = valid_link_model();
    zip(&[
        ("MultiModel.xml", index.as_slice()),
        ("models/model.ifc", b"ISO-10303-21;ENDSEC;END-ISO-10303-21;"),
        ("links/elements.xml", links.as_slice()),
    ])
}

fn xml_error(result: Result<MmcArchive, MmcError>) -> (String, String) {
    match result {
        Err(MmcError::Xml { path, message }) => (path, message),
        other => panic!("expected an XML error, got {other:?}"),
    }
}

fn limit_error(result: Result<MmcArchive, MmcError>) -> (&'static str, u64, u64) {
    match result {
        Err(MmcError::LimitExceeded { resource, actual, maximum }) => (resource, actual, maximum),
        other => panic!("expected a limit error, got {other:?}"),
    }
}

fn unsafe_path(result: Result<MmcArchive, MmcError>) -> (String, &'static str) {
    match result {
        Err(MmcError::UnsafeArchivePath { path, reason }) => (path, reason),
        other => panic!("expected an unsafe path, got {other:?}"),
    }
}

fn container_only(xml: &str) -> Vec<u8> {
    zip(&[("MultiModel.xml", xml.as_bytes())])
}

fn minimal_root(body: &str) -> String {
    format!(
        r#"<m:MultiModel xmlns:m="{MMC_NS}" uuid="{UUID}" formatVersion="2.0.0"><m:ApplicationModels><m:ApplicationModel id="a" modelType="t"><m:ModelData id="d" formatType="f"><m:DataRessource id="r" location="https://example.test/a"/></m:ModelData></m:ApplicationModel></m:ApplicationModels>{body}</m:MultiModel>"#
    )
}

fn with_link(link: &str) -> Vec<u8> {
    let index = valid_multimodel("links/elements.xml", "models/model.ifc");
    zip(&[
        ("MultiModel.xml", index.as_slice()),
        ("models/model.ifc", b"ifc"),
        ("links/elements.xml", link.as_bytes()),
    ])
}


#[test]
fn deterministic_bytes_agree_across_parses_and_keep_path_order() {
    let first = MmcArchive::parse(&valid_archive()).unwrap();
    let second = MmcArchive::parse(&valid_archive()).unwrap();
    let bytes = first.to_deterministic_bytes().unwrap();
    assert_eq!(bytes, second.to_deterministic_bytes().unwrap());
    let reopened = MmcArchive::parse(&bytes).unwrap();
    let paths: Vec<&str> = reopened.entries().iter().map(|entry| entry.path()).collect();
    assert_eq!(paths, vec!["MultiModel.xml", "links/elements.xml", "models/model.ifc"]);
    for entry in first.entries() {
        assert_eq!(reopened.entry(entry.path()).unwrap().bytes(), entry.bytes());
    }
}

#[test]
fn validation_reports_agree_across_calls_and_are_in_report_order() {
    let index = valid_multimodel("links/elements.xml", "models/missing.ifc");
    let links = format!(
        r#"<LinkModel xmlns="{LINK_NS}" formatVersion="2.0.0"><Link><Relatum m="not-declared" id="x"/></Link></LinkModel>"#
    );
    let bytes = zip(&[("MultiModel.xml", index.as_slice()), ("links/elements.xml", links.as_bytes())]);
    let archive = MmcArchive::parse(&bytes).unwrap();
    let first = archive.validate();
    let second = archive.validate();
    assert_eq!(first, second);
    let locations: Vec<&str> = first.issues().iter().map(|issue| issue.location.as_str()).collect();
    let mut sorted = locations.clone();
    sorted.sort();
    assert_eq!(locations, sorted);
}

#[test]
fn entry_lookup_is_exact() {
    let archive = MmcArchive::parse(&valid_archive()).unwrap();
    assert!(archive.entry("MODELS/model.ifc").is_none());
    assert!(archive.entry("models/model.if").is_none());
    assert_eq!(archive.entry("MultiModel.xml").unwrap().kind(), EntryKind::Metadata);
    assert_eq!(archive.entries().len(), 3);
    assert_eq!(archive.container().source_bytes(), archive.entry("MultiModel.xml").unwrap().bytes());
    assert_eq!(
        archive.parsed_link_models()[0].source_bytes(),
        archive.entry("links/elements.xml").unwrap().bytes()
    );
}

#[test]
fn archive_budget_reports_sizes() {
    let bytes = valid_archive();
    let limits = Limits { max_archive_bytes: 10, ..Limits::default() };
    assert_eq!(
        limit_error(MmcArchive::parse_with_limits(&bytes, limits)),
        ("archive bytes", bytes.len() as u64, 10)
    );
    let limits = Limits { max_entries: 2, ..Limits::default() };
    assert_eq!(limit_error(MmcArchive::parse_with_limits(&bytes, limits)), ("ZIP entries", 3, 2));
    let limits = Limits { max_entry_bytes: 8, ..Limits::default() };
    let index_len = valid_multimodel("links/elements.xml", "models/model.ifc").len() as u64;
    assert_eq!(limit_error(MmcArchive::parse_with_limits(&bytes, limits)), ("entry bytes", index_len, 8));
    let limits = Limits { max_total_uncompressed_bytes: 32, ..Limits::default() };
    assert_eq!(
        limit_error(MmcArchive::parse_with_limits(&bytes, limits)),
        ("total uncompressed bytes", index_len, 32)
    );
}

#[test]
fn compression_ratio_is_declared_size_per_compressed_byte() {
    let index = valid_multimodel("links/elements.xml", "models/model.ifc");
    let repeated = vec![b'x'; 100_000];
    let bytes = zip(&[("MultiModel.xml", index.as_slice()), ("models/model.ifc", repeated.as_slice())]);
    let (resource, actual, maximum) =
        limit_error(MmcArchive::parse_with_limits(&bytes, Limits { max_compression_ratio: 10, ..Limits::default() }));
    assert_eq!(resource, "compression ratio");
    assert_eq!(maximum, 10);
    assert!(actual > 10);
}

#[test]
fn not_a_zip_is_a_codec_failure() {
    assert!(matches!(MmcArchive::parse(b"not a zip archive"), Err(MmcError::Zip(_))));
}

#[test]
fn refused_entry_names_carry_their_reason() {
    let index = valid_multimodel("links/elements.xml", "models/model.ifc");
    for (name, reason) in [
        ("/absolute.ifc", "absolute path"),
        ("../escape.ifc", "dot or traversal component"),
        ("models\\escape.ifc", "backslash separator"),
        ("a:b.ifc", "non-portable or reserved filename character"),
        ("dir/COM1.txt", "reserved Windows device name"),
        ("trail.", "Windows-trimmed component"),
        ("models//escape.ifc", "repeated separator"),
        ("models/", "directory or trailing separator"),
    ] {
        let bytes = zip(&[("MultiModel.xml", index.as_slice()), (name, b"x")]);
        assert_eq!(unsafe_path(MmcArchive::parse(&bytes)), (name.to_owned(), reason), "{name}");
    }
    let link = zip_with_mode("link", b"MultiModel.xml", 0o120777);
    assert_eq!(unsafe_path(MmcArchive::parse(&link)), ("link".to_owned(), "non-regular ZIP entry"));
}

#[test]
fn entry_names_that_are_not_utf8_are_refused() {
    let index = valid_multimodel("links/elements.xml", "models/model.ifc");
    let mut bytes = zip(&[("MultiModel.xml", index.as_slice()), ("aXb.bin", b"x")]);
    let mut replaced = 0;
    for offset in 0..bytes.len() - 7 {
        if &bytes[offset..offset + 7] == b"aXb.bin" {
            bytes[offset + 1] = 0xff;
            replaced += 1;
        }
    }
    assert_eq!(replaced, 2);
    let (path, reason) = unsafe_path(MmcArchive::parse(&bytes));
    assert_eq!(reason, "entry name is not UTF-8");
    assert_eq!(path, "a\u{fffd}b.bin");
}

#[test]
fn colliding_names_report_both_spellings() {
    let index = valid_multimodel("links/elements.xml", "models/model.ifc");
    let bytes = zip(&[("MultiModel.xml", index.as_slice()), ("multimodel.xml", b"other")]);
    match MmcArchive::parse(&bytes) {
        Err(MmcError::DuplicateArchivePath { first, second }) => {
            assert_eq!(first, "MultiModel.xml");
            assert_eq!(second, "multimodel.xml");
        }
        other => panic!("expected a duplicate, got {other:?}"),
    }
    let bytes = zip(&[("MultiModel.xml", index.as_slice()), ("caf\u{e9}.bin", b"1"), ("cafe\u{301}.bin", b"2")]);
    assert!(matches!(MmcArchive::parse(&bytes), Err(MmcError::DuplicateArchivePath { .. })));
}

#[test]
fn container_failures_name_the_rule() {
    let wrong = container_only(r#"<MultiModel xmlns="urn:not-mmc"/>"#);
    assert_eq!(
        xml_error(MmcArchive::parse(&wrong)),
        (
            "MultiModel.xml".to_owned(),
            "expected {http://www.buildingsmart.org/multi-model/MMContainer/2.0.0}MultiModel root".to_owned()
        )
    );
    let doctype = container_only(&format!("<!DOCTYPE x>{}", minimal_root("")));
    assert_eq!(xml_error(MmcArchive::parse(&doctype)).1, "DOCTYPE is prohibited");
    let no_uuid = container_only(&minimal_root("").replace(&format!(" uuid=\"{UUID}\""), ""));
    assert_eq!(xml_error(MmcArchive::parse(&no_uuid)).1, "MultiModel requires @uuid");
    let bad_uuid = container_only(&minimal_root("").replace(UUID, "not-a-uuid"));
    assert!(xml_error(MmcArchive::parse(&bad_uuid)).1.starts_with("invalid uuid: "));
    let nested = container_only(&minimal_root("<m:ModelData id=\"x\" formatType=\"y\"/>"));
    assert_eq!(xml_error(MmcArchive::parse(&nested)).1, "unexpected MMC element position");
    let entity = container_only(&minimal_root("<m:MetaData><m:Meta key=\"k\" value=\"&foo;\"/></m:MetaData>"));
    assert!(MmcArchive::parse(&entity).is_err());
    let outside = container_only(&format!("{}trailing", minimal_root("")));
    assert_eq!(xml_error(MmcArchive::parse(&outside)).1, "character content outside the document root");
    let twice = container_only(&format!("{}{}", minimal_root(""), minimal_root("")));
    assert_eq!(xml_error(MmcArchive::parse(&twice)).1, "multiple root elements");
    let truncated = container_only(&minimal_root("").replace("</m:MultiModel>", ""));
    assert!(MmcArchive::parse(&truncated).is_err());
    let empty_id = container_only(&minimal_root("").replace("id=\"a\"", "id=\"\""));
    assert_eq!(xml_error(MmcArchive::parse(&empty_id)).1, "ApplicationModel requires @id");
}

#[test]
fn container_source_checks_come_first() {
    let not_utf8 = zip(&[("MultiModel.xml", b"<m\xff/>")]);
    assert_eq!(xml_error(MmcArchive::parse(&not_utf8)).1, "XML is not UTF-8");
    let forbidden = zip(&[("MultiModel.xml", b"<m\x01/>")]);
    assert_eq!(xml_error(MmcArchive::parse(&forbidden)).1, "XML contains a character forbidden by XML 1.0");
    let bytes = valid_archive();
    let limits = Limits { max_xml_bytes: 16, ..Limits::default() };
    let index_len = valid_multimodel("links/elements.xml", "models/model.ifc").len() as u64;
    assert_eq!(limit_error(MmcArchive::parse_with_limits(&bytes, limits)), ("XML bytes", index_len, 16));
    let limits = Limits { max_xml_events: 2, ..Limits::default() };
    assert_eq!(limit_error(MmcArchive::parse_with_limits(&bytes, limits)), ("XML events", 3, 2));
}

#[test]
fn container_budgets_report_counts() {
    let bytes = valid_archive();
    assert_eq!(
        limit_error(MmcArchive::parse_with_limits(&bytes, Limits { max_models: 1, ..Limits::default() })),
        ("application models", 2, 1)
    );
    assert_eq!(
        limit_error(MmcArchive::parse_with_limits(&bytes, Limits { max_link_models: 0, ..Limits::default() })),
        ("link models", 1, 0)
    );
}

#[test]
fn link_model_failures_name_their_entry() {
    let missing_version = format!(r#"<l:LinkModel xmlns:l="{LINK_NS}"><l:Link/></l:LinkModel>"#);
    assert_eq!(
        xml_error(MmcArchive::parse(&with_link(&missing_version))),
        ("links/elements.xml".to_owned(), "LinkModel requires @formatVersion".to_owned())
    );
    let wrong_root = format!(r#"<l:Other xmlns:l="{LINK_NS}" formatVersion="2.0.0"/>"#);
    assert_eq!(
        xml_error(MmcArchive::parse(&with_link(&wrong_root))).1,
        "expected {http://www.buildingsmart.org/multi-model/LinkModel/2.0.0}LinkModel root"
    );
    let no_model = format!(
        r#"<l:LinkModel xmlns:l="{LINK_NS}" formatVersion="2.0.0"><l:Link><l:Relatum id="x"/></l:Link></l:LinkModel>"#
    );
    assert_eq!(xml_error(MmcArchive::parse(&with_link(&no_model))).1, "Relatum requires @m");
    let rate = format!(
        r#"<l:LinkModel xmlns:l="{LINK_NS}" formatVersion="2.0.0"><l:Link><l:Relatum id="x" m="y"><l:Rate t="a" v="b"/></l:Relatum></l:Link></l:LinkModel>"#
    );
    assert_eq!(xml_error(MmcArchive::parse(&with_link(&rate))).1, "Rate requires @m");
    let misplaced = format!(
        r#"<l:LinkModel xmlns:l="{LINK_NS}" formatVersion="2.0.0"><l:Relatum id="x" m="y"/></l:LinkModel>"#
    );
    assert_eq!(xml_error(MmcArchive::parse(&with_link(&misplaced))).1, "unexpected LinkModel element position");
    let bytes = valid_archive();
    assert_eq!(
        limit_error(MmcArchive::parse_with_limits(&bytes, Limits { max_links: 0, ..Limits::default() })),
        ("links", 1, 0)
    );
    assert_eq!(
        limit_error(MmcArchive::parse_with_limits(&bytes, Limits { max_linked_elements: 1, ..Limits::default() })),
        ("relata", 2, 1)
    );
}

#[test]
fn link_models_keep_their_metadata_and_rates() {
    let link = format!(
        r#"<l:LinkModel xmlns:l="{LINK_NS}" formatVersion="2.0.0"><l:MetaData><l:Meta k="a" v="1" t="int" c="g"/></l:MetaData><l:Link><l:MetaData><l:Meta k="b" v="2"/></l:MetaData><l:Relatum id="x" m="model-ifc"><l:MetaData><l:Meta k="c" v="3"/></l:MetaData><l:Rate t="w" v="0.5" m="model-gaeb"/></l:Relatum><l:Relatum id="y" m="model-gaeb"/></l:Link></l:LinkModel>"#
    );
    let archive = MmcArchive::parse(&with_link(&link)).unwrap();
    let model = archive.parsed_link_models()[0].model();
    assert_eq!(model.metadata[0].key, "a");
    assert_eq!(model.metadata[0].value_type.as_deref(), Some("int"));
    assert_eq!(model.metadata[0].category.as_deref(), Some("g"));
    assert_eq!(model.links[0].metadata[0].value, "2");
    assert_eq!(model.links[0].relata[0].metadata[0].key, "c");
    assert_eq!(model.links[0].relata[0].rates[0].target_model, "model-gaeb");
    assert_eq!(model.links[0].relata[1].element_id, "y");
}

#[test]
fn container_projection_reads_every_position() {
    let archive = MmcArchive::parse(&valid_archive()).unwrap();
    let container = archive.container();
    assert_eq!(container.metadata.mm_domain.as_deref(), Some("urn:din:18290:test"));
    assert_eq!(container.metadata.metadata[0].value, "Bridge & Road");
    assert_eq!(container.models[1].representations[0].format_version.as_deref(), Some("3.3"));
    assert_eq!(
        container.models[1].representations[0].resources[0].location.external_uri(),
        Some("https://example.test/bill.xml")
    );
    assert_eq!(container.link_models[0].linked_models, vec!["model-ifc", "model-gaeb"]);
}

#[test]
fn standard_elements_inside_extensions_are_not_projected() {
    let xml = minimal_root("<x:Ext xmlns:x=\"urn:ext\"><m:LinkModels><m:LinkModel location=\"l.xml\"><m:LinkedModel>a</m:LinkedModel></m:LinkModel></m:LinkModels></x:Ext>");
    let archive = MmcArchive::parse(&container_only(&xml)).unwrap();
    assert!(archive.container().link_models.is_empty());
    assert_eq!(archive.container().models.len(), 1);
}

#[test]
fn link_targets_are_parsed_once_and_only_when_present() {
    let raw = String::from_utf8(valid_multimodel("links/elements.xml", "models/model.ifc")).unwrap();
    let doubled = raw.replace(
        "</mmc:LinkModels>",
        "<mmc:LinkModel location=\"links/elements.xml\"/><mmc:LinkModel location=\"links/absent.xml\"/><mmc:LinkModel location=\"https://example.test/l.xml\"/></mmc:LinkModels>",
    );
    let links = valid_link_model();
    let bytes = zip(&[("MultiModel.xml", doubled.as_bytes()), ("links/elements.xml", links.as_slice())]);
    let archive = MmcArchive::parse(&bytes).unwrap();
    assert_eq!(archive.container().link_models.len(), 4);
    assert_eq!(archive.parsed_link_models().len(), 1);
    assert_eq!(archive.parsed_link_models()[0].path(), "links/elements.xml");
}

#[test]
fn paths_are_admitted_by_component() {
    assert!(validate_archive_path("models/model.ifc").is_ok());
    assert!(validate_archive_path("a/b/c").is_ok());
    assert!(validate_archive_path("a/ b").is_ok());
    for (path, reason) in [
        ("", "empty path"),
        ("NUL.txt", "reserved Windows device name"),
        ("com9", "reserved Windows device name"),
        ("a/./b", "dot or traversal component"),
        ("a\u{7}b", "non-portable or reserved filename character"),
        ("a?b", "non-portable or reserved filename character"),
        ("end ", "Windows-trimmed component"),
    ] {
        match validate_archive_path(path) {
            Err(MmcError::UnsafeArchivePath { path: p, reason: r }) => {
                assert_eq!(p, path);
                assert_eq!(r, reason, "{path:?}");
            }
            other => panic!("{path:?}: {other:?}"),
        }
    }
}

#[test]
fn collision_keys_fold_case_and_compatibility_forms() {
    assert_eq!(collision_key("ABC/Def.IFC"), "abc/def.ifc");
    assert_eq!(collision_key("\u{fb01}le"), "file");
    assert_eq!(collision_key("\u{212b}"), "\u{e5}");
    assert_ne!(collision_key("a.bin"), collision_key("b.bin"));
}

#[test]
fn ancestor_components_are_the_directories() {
    assert_eq!(ancestor_components("models/sub/model.ifc"), vec!["models", "sub"]);
    assert!(ancestor_components("model.ifc").is_empty());
}

#[test]
fn extraction_size_is_the_total_of_the_entries() {
    let bytes = valid_archive();
    let archive = MmcArchive::parse(&bytes).unwrap();
    let total: usize = archive.entries().iter().map(|entry| entry.bytes().len()).sum();
    assert_eq!(archive.extraction_size().unwrap(), total as u64);
    let limited = MmcArchive::parse_with_limits(&bytes, Limits { max_extracted_bytes: 10, ..Limits::default() }).unwrap();
    match limited.extraction_size() {
        Err(MmcError::LimitExceeded { resource, actual, maximum }) => {
            assert_eq!((resource, actual, maximum), ("extracted bytes", total as u64, 10));
        }
        other => panic!("{other:?}"),
    }
    assert_eq!(limited.limits().max_extracted_bytes, 10);
}

#[test]
fn default_limits_are_the_production_budgets() {
    let limits = Limits::default();
    assert_eq!(limits.max_archive_bytes, 512 * 1024 * 1024);
    assert_eq!(limits.max_entries, 10_000);
    assert_eq!(limits.max_entry_bytes, 256 * 1024 * 1024);
    assert_eq!(limits.max_total_uncompressed_bytes, 2 * 1024 * 1024 * 1024);
    assert_eq!(limits.max_xml_bytes, 32 * 1024 * 1024);
    assert_eq!(limits.max_xml_events, 2_000_000);
    assert_eq!(limits.max_models, 100_000);
    assert_eq!(limits.max_link_models, 100_000);
    assert_eq!(limits.max_links, 1_000_000);
    assert_eq!(limits.max_linked_elements, 5_000_000);
    assert_eq!(limits.max_compression_ratio, 1_000);
    assert_eq!(limits.max_extracted_bytes, 2 * 1024 * 1024 * 1024);
}

#[test]
fn builder_reservations_follow_the_last_colliding_spelling() {
    let mut builder = MmcArchiveBuilder::new(ContainerMetadata::default());
    builder.add_embedded_resource("a.bin", vec![1]).unwrap();
    match builder.add_embedded_resource("A.BIN", vec![2]) {
        Err(MmcError::DuplicateArchivePath { first, second }) => assert_eq!((first.as_str(), second.as_str()), ("a.bin", "A.BIN")),
        other => panic!("{other:?}"),
    }
    match builder.add_embedded_resource("a.Bin", vec![3]) {
        Err(MmcError::DuplicateArchivePath { first, second }) => assert_eq!((first.as_str(), second.as_str()), ("A.BIN", "a.Bin")),
        other => panic!("{other:?}"),
    }
    match builder.add_embedded_resource("multimodel.XML", vec![]) {
        Err(MmcError::DuplicateArchivePath { first, .. }) => assert_eq!(first, "MultiModel.xml"),
        other => panic!("{other:?}"),
    }
    match builder.add_embedded_resource("../x", vec![]) {
        Err(MmcError::UnsafeArchivePath { reason, .. }) => assert_eq!(reason, "dot or traversal component"),
        other => panic!("{other:?}"),
    }
}

#[test]
fn builder_refuses_empty_identifiers() {
    let mut builder = MmcArchiveBuilder::new(ContainerMetadata::default());
    let model = ApplicationModel { model_type: "IFC".to_owned(), ..ApplicationModel::default() };
    match builder.add_application_model(model) {
        Err(MmcError::InvalidBuilder(message)) => {
            assert_eq!(message, "application models require non-empty id and model_type")
        }
        other => panic!("{other:?}"),
    }
    match builder.add_link_model("links/l.xml", vec!["a".to_owned(), String::new()], LinkModel::default()) {
        Err(MmcError::InvalidBuilder(message)) => assert_eq!(message, "linked model identifiers must not be empty"),
        other => panic!("{other:?}"),
    }
    assert!(matches!(
        builder.add_embedded_resource("links/l.xml", vec![]),
        Err(MmcError::DuplicateArchivePath { .. })
    ));
}

#[test]
fn built_archives_are_conformant_and_in_path_order() {
    let mut builder = MmcArchiveBuilder::new(ContainerMetadata {
        uuid: 0x4d69a34231b64e809d0583a28754c84d,
        ..ContainerMetadata::default()
    });
    builder
        .add_application_model(ApplicationModel {
            id: "m".to_owned(),
            model_type: "IFC".to_owned(),
            representations: vec![openbim_mmc::ModelData {
                id: "d".to_owned(),
                format_type: "IFC".to_owned(),
                resources: vec![openbim_mmc::DataResource {
                    id: "r".to_owned(),
                    location: openbim_mmc::ResourceLocation::Embedded("z/model.ifc".to_owned()),
                    ..openbim_mmc::DataResource::default()
                }],
                ..openbim_mmc::ModelData::default()
            }],
            ..ApplicationModel::default()
        })
        .unwrap();
    builder.add_embedded_resource("z/model.ifc", b"z".to_vec()).unwrap();
    builder.add_embedded_resource("a/notes.txt", b"a".to_vec()).unwrap();
    let archive = builder.build().unwrap();
    let paths: Vec<&str> = archive.entries().iter().map(|entry| entry.path()).collect();
    assert_eq!(paths, vec!["MultiModel.xml", "a/notes.txt", "z/model.ifc"]);
    let index = std::str::from_utf8(archive.entry("MultiModel.xml").unwrap().bytes()).unwrap();
    assert!(index.starts_with("<?xml version=\"1.0\" encoding=\"UTF-8\"?>"));
    assert!(index.contains("uuid=\"4d69a342-31b6-4e80-9d05-83a28754c84d\""));
    assert!(!index.contains("LinkModels"));
    assert!(!index.contains("mmDomain"));
    assert_eq!(archive.container().metadata.uuid, 0x4d69a34231b64e809d0583a28754c84d);
    assert!(archive.validate().is_valid());
}

#[test]
fn builder_reports_the_findings_of_a_nonconformant_archive() {
    let builder = MmcArchiveBuilder::new(ContainerMetadata::default());
    match builder.build() {
        Err(MmcError::InvalidBuilder(message)) => {
            assert!(message.starts_with("built archive is not conformant: [ValidationIssue"), "{message}");
            assert!(message.contains("MissingApplicationModel") || message.contains("ApplicationModel"), "{message}");
        }
        other => panic!("{other:?}"),
    }
}

#[test]
fn duplicate_metadata_keys_name_their_category() {
    let xml = String::from_utf8(valid_multimodel("links/elements.xml", "models/model.ifc"))
        .unwrap()
        .replace(
            "<mmc:ApplicationModels>",
            "<mmc:MetaData><mmc:Meta key=\"k\" value=\"1\" category=\"c\"/><mmc:Meta key=\"k\" value=\"2\" category=\"c\"/><mmc:Meta key=\"k\" value=\"3\"/><mmc:Meta key=\"k\" value=\"4\"/></mmc:MetaData><mmc:ApplicationModels>",
        );
    let links = valid_link_model();
    let bytes = zip(&[("MultiModel.xml", xml.as_bytes()), ("links/elements.xml", links.as_slice())]);
    let report = MmcArchive::parse(&bytes).unwrap().validate();
    let messages: Vec<&str> = report
        .issues()
        .iter()
        .filter(|issue| issue.code == ValidationCode::DuplicateMetadataKey)
        .map(|issue| issue.message.as_str())
        .collect();
    assert_eq!(messages, vec!["duplicate metadata key None/k", "duplicate metadata key Some(\"c\")/k"]);
}

fn zip_with_forged_uncompressed_size(entries: &[(&str, &[u8])], target: &str, forged_size: u32) -> Vec<u8> {
    let mut bytes = zip(entries);
    let mut offset = 0;
    let mut found = false;
    while offset + 46 <= bytes.len() {
        let Some(relative) = bytes[offset..].windows(4).position(|window| window == b"PK\x01\x02") else {
            break;
        };
        let central = offset + relative;
        let name_len = u16::from_le_bytes([bytes[central + 28], bytes[central + 29]]) as usize;
        let extra_len = u16::from_le_bytes([bytes[central + 30], bytes[central + 31]]) as usize;
        let comment_len = u16::from_le_bytes([bytes[central + 32], bytes[central + 33]]) as usize;
        let name_start = central + 46;
        let name_end = name_start + name_len;
        if name_end > bytes.len() {
            break;
        }
        if &bytes[name_start..name_end] == target.as_bytes() {
            bytes[central + 24..central + 28].copy_from_slice(&forged_size.to_le_bytes());
            found = true;
            break;
        }
        offset = name_end + extra_len + comment_len;
    }
    assert!(found, "target entry must exist in the central directory");
    bytes
}

fn archive_with_forged_payload_size(forged_size: u32) -> (Vec<u8>, usize) {
    let index = valid_multimodel("links/elements.xml", "models/model.ifc");
    let links = valid_link_model();
    let payload: &[u8] = b"ISO-10303-21;ENDSEC;END-ISO-10303-21;";
    let bytes = zip_with_forged_uncompressed_size(
        &[
            ("MultiModel.xml", index.as_slice()),
            ("models/model.ifc", payload),
            ("links/elements.xml", links.as_slice()),
        ],
        "models/model.ifc",
        forged_size,
    );
    (bytes, payload.len())
}

#[test]
fn an_understated_entry_size_is_invalid_zip_metadata() {
    let (bytes, actual_len) = archive_with_forged_payload_size(3);
    match MmcArchive::parse(&bytes) {
        Err(MmcError::InvalidZipMetadata { path, declared, actual }) => {
            assert_eq!(path, "models/model.ifc");
            assert_eq!(declared, 3);
            assert_eq!(actual, actual_len as u64);
        }
        other => panic!("{other:?}"),
    }
}

#[test]
fn an_overstated_entry_size_is_invalid_zip_metadata() {
    let (bytes, actual_len) = archive_with_forged_payload_size(40);
    match MmcArchive::parse(&bytes) {
        Err(MmcError::InvalidZipMetadata { path, declared, actual }) => {
            assert_eq!(path, "models/model.ifc");
            assert_eq!(declared, 40);
            assert_eq!(actual, actual_len as u64);
        }
        other => panic!("{other:?}"),
    }
}

#[test]
fn standard_link_elements_inside_extensions_are_misplaced() {
    let link = format!(
        r#"<l:LinkModel xmlns:l="{LINK_NS}" formatVersion="2.0.0"><x:Ext xmlns:x="urn:example"><l:Link><l:Relatum m="model-ifc" id="a"/><l:Relatum m="model-gaeb" id="b"/></l:Link></x:Ext></l:LinkModel>"#
    );
    let (path, message) = xml_error(MmcArchive::parse(&with_link(&link)));
    assert_eq!(path, "links/elements.xml");
    assert_eq!(message, "unexpected LinkModel element position");
}

#[test]
fn finding_lists_render_as_their_debug_form() {
    let issues = vec![
        ValidationIssue {
            code: ValidationCode::DuplicateMetadataKey,
            location: "MultiModel.xml/MetaData".to_owned(),
            message: "duplicate metadata key Some(\"cat\")/k\twith \\ and\nnewline".to_owned(),
        },
        ValidationIssue {
            code: ValidationCode::TooFewApplicationModels,
            location: "MultiModel.xml".to_owned(),
            message: "ünïcode ✓".to_owned(),
        },
    ];
    assert_eq!(issues_debug(&issues), format!("{:?}", issues));
    assert_eq!(issues_debug(&issues[..1]), format!("{:?}", &issues[..1]));
    assert_eq!(issues_debug(&[]), "[]");
}

#[test]
fn reemitted_archives_keep_every_entry_in_path_order() {
    let archive = MmcArchive::parse(&valid_archive()).unwrap();
    let bytes = archive.to_deterministic_bytes().unwrap();
    let mut zip = zip::ZipArchive::new(Cursor::new(bytes.as_slice())).unwrap();
    let mut expected: Vec<(String, Vec<u8>)> =
        archive.entries().iter().map(|entry| (entry.path().to_owned(), entry.bytes().to_vec())).collect();
    expected.sort();
    assert_eq!(zip.len(), expected.len());
    for (index, (path, data)) in expected.iter().enumerate() {
        let mut file = zip.by_index(index).unwrap();
        assert_eq!(file.name(), path);
        assert_eq!(file.size(), data.len() as u64);
        let mut read = Vec::new();
        std::io::Read::read_to_end(&mut file, &mut read).unwrap();
        assert_eq!(&read, data);
    }
}

#[test]
fn documents_serialize_without_failing() {
    let model = LinkModel { format_version: "2.0.0".to_owned(), ..LinkModel::default() };
    let bytes = openbim_mmc::documents::serialize_link_model(&model).unwrap();
    let text = String::from_utf8(bytes).unwrap();
    assert!(text.starts_with("<?xml version=\"1.0\" encoding=\"UTF-8\"?>"), "{text}");
    assert!(text.contains("formatVersion=\"2.0.0\""), "{text}");
}

#[test]
fn the_container_root_cannot_also_be_read_as_a_link_model() {
    let index = valid_multimodel("MultiModel.xml", "models/model.ifc");
    let bytes = zip(&[("MultiModel.xml", index.as_slice()), ("models/model.ifc", b"ifc")]);
    let (path, message) = xml_error(MmcArchive::parse(&bytes));
    assert_eq!(path, "MultiModel.xml");
    assert_eq!(message, format!("expected {{{LINK_NS}}}LinkModel root"));
}

#[test]
fn parsed_archives_have_one_metadata_entry_holding_the_container_source() {
    let archive = MmcArchive::parse(&valid_archive()).unwrap();
    let metadata: Vec<_> = archive.entries().iter().filter(|entry| entry.kind() == EntryKind::Metadata).collect();
    assert_eq!(metadata.len(), 1);
    assert_eq!(metadata[0].path(), "MultiModel.xml");
    assert_eq!(metadata[0].bytes(), archive.container().source_bytes());
}

#[test]
fn builder_refuses_paths_too_long_for_a_zip_entry_name() {
    let mut builder = MmcArchiveBuilder::new(ContainerMetadata::default());
    let path = format!("data/{}", "x".repeat(70_000));
    match builder.add_embedded_resource(&path, b"x".to_vec()) {
        Err(MmcError::LimitExceeded { resource, actual, maximum }) => {
            assert_eq!(resource, "archive path bytes");
            assert_eq!(actual, path.len() as u64);
            assert_eq!(maximum, 65_535);
        }
        other => panic!("{other:?}"),
    }
    let fitting = format!("data/{}", "x".repeat(65_530));
    assert_eq!(fitting.len(), 65_535);
    assert!(builder.add_embedded_resource(&fitting, b"x".to_vec()).is_ok());
}

#[test]
fn written_link_models_parse_back_unchanged() {
    let model = LinkModel {
        format_version: "2.0.0".to_owned(),
        metadata: vec![MetadataEntry {
            key: "title".to_owned(),
            value: "Links & relations <\"quoted\"> 'x'".to_owned(),
            value_type: Some("string".to_owned()),
            category: None,
        }],
        links: vec![Link {
            metadata: vec![],
            relata: vec![
                Relatum {
                    element_id: "e1".to_owned(),
                    model_id: "m1".to_owned(),
                    format_id: Some("f".to_owned()),
                    resource_id: None,
                    metadata: vec![MetadataEntry {
                        key: "k".to_owned(),
                        value: "v".to_owned(),
                        value_type: None,
                        category: Some("c".to_owned()),
                    }],
                    rates: vec![Rate { rate_type: "t".to_owned(), value: "1.0".to_owned(), target_model: "m2".to_owned() }],
                },
                Relatum { element_id: "e2".to_owned(), model_id: "m2".to_owned(), ..Relatum::default() },
            ],
        }],
    };
    let bytes = openbim_mmc::documents::serialize_link_model(&model).unwrap();
    let parsed = openbim_mmc::link_xml::parse_link_model("links/l.xml", &bytes, Limits::default()).unwrap();
    assert_eq!(parsed, model);
}

#[test]
fn written_containers_parse_back_unchanged() {
    let item = |key: &str, value: &str| MetadataEntry {
        key: key.to_owned(),
        value: value.to_owned(),
        value_type: Some("string".to_owned()),
        category: Some("general".to_owned()),
    };
    let metadata = ContainerMetadata {
        uuid: 0x4d69_a342_31b6_4e80_9d05_83a2_8754_c84d,
        format_version: "2.0.0".to_owned(),
        mm_domain: Some("urn:din:18290:test".to_owned()),
        metadata: vec![item("project", "P<&\"1'>")],
    };
    let models = vec![
        ApplicationModel {
            id: "arch".to_owned(),
            model_type: "IFC".to_owned(),
            metadata: vec![item("discipline", "architecture")],
            representations: vec![ModelData {
                id: "d1".to_owned(),
                format_type: "IFC4".to_owned(),
                format_version: Some("4.0".to_owned()),
                metadata: vec![item("k", "v")],
                resources: vec![
                    DataResource {
                        id: "r1".to_owned(),
                        location: ResourceLocation::Embedded("models/a & b.ifc".to_owned()),
                        metadata: vec![],
                    },
                    DataResource {
                        id: "r2".to_owned(),
                        location: ResourceLocation::External("https://example.org/x.ifc?a=1&b=2".to_owned()),
                        metadata: vec![item("origin", "remote")],
                    },
                ],
            }],
        },
        ApplicationModel {
            id: "empty".to_owned(),
            model_type: "IFC".to_owned(),
            metadata: vec![],
            representations: vec![],
        },
    ];
    let refs = vec![LinkModelReference {
        location: ResourceLocation::Embedded("links/l.xml".to_owned()),
        linked_models: vec!["arch".to_owned(), "a&b <c>".to_owned(), String::new()],
        metadata: vec![item("kind", "links")],
    }];
    let bytes = openbim_mmc::documents::serialize_multimodel(&metadata, &models, &refs).unwrap();
    let parsed = openbim_mmc::multimodel_xml::parse_multimodel(&bytes, Limits::default()).unwrap();
    assert_eq!(parsed.metadata, metadata);
    assert_eq!(parsed.models, models);
    assert_eq!(parsed.link_models, refs);
    assert_eq!(parsed.source, bytes);

    let without_references = openbim_mmc::documents::serialize_multimodel(&metadata, &models, &vec![]).unwrap();
    let parsed = openbim_mmc::multimodel_xml::parse_multimodel(&without_references, Limits::default()).unwrap();
    assert!(parsed.link_models.is_empty());
    assert_eq!(parsed.models, models);
}
