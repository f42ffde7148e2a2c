use solc_json_interface::evm_version::EvmVersion;
use solc_json_interface::libraries::Libraries;
use solc_json_interface::libraries::ParseError;
use solc_json_interface::metadata::Metadata;
use solc_json_interface::node::Node;
use solc_json_interface::optimizer::Optimizer;
use solc_json_interface::polkavm::PolkaVM;
use solc_json_interface::remappings::Remappings;
use solc_json_interface::selection::Selection;
use solc_json_interface::settings::DocError;
use solc_json_interface::settings::Settings;

fn s(x: &str) -> String {
    x.to_string()
}

#[test]
fn parse_single_binding() {
    let libs = Settings::parse_libraries(vec![s("f:c=a")]).ok().unwrap();
    assert_eq!(libs.file_count(), 1);
    assert_eq!(libs.get("f", "c"), Some(s("a")));
    assert_eq!(libs.get("f", "x"), None);
    assert_eq!(libs.get("g", "c"), None);
}

#[test]
fn parse_last_write_wins() {
    let libs = Settings::parse_libraries(vec![s("f:c=1"), s("f:c=2")]).ok().unwrap();
    assert_eq!(libs.file_count(), 1);
    assert_eq!(libs.get("f", "c"), Some(s("2")));
}

#[test]
fn parse_order_independent_content() {
    let a = Settings::parse_libraries(vec![s("a:x=1"), s("b:y=2")]).ok().unwrap();
    let b = Settings::parse_libraries(vec![s("b:y=2"), s("a:x=1")]).ok().unwrap();
    assert_eq!(a.get("a", "x"), b.get("a", "x"));
    assert_eq!(a.get("b", "y"), b.get("b", "y"));
    assert_eq!(a.file_count(), b.file_count());
}

#[test]
fn parse_empty_list() {
    let libs = Settings::parse_libraries(vec![]).ok().unwrap();
    assert_eq!(libs.file_count(), 0);
}

#[test]
fn parse_missing_path() {
    assert!(matches!(
        Settings::parse_libraries(vec![s("noequals")]),
        Err(ParseError::MissingPath(0))
    ));
}

#[test]
fn parse_missing_file_name() {
    assert!(matches!(
        Settings::parse_libraries(vec![s("nofilesep=addr")]),
        Err(ParseError::MissingFileName(p)) if p == "nofilesep"
    ));
}

#[test]
fn parse_missing_contract_name() {
    assert!(matches!(
        Settings::parse_libraries(vec![s("f:=addr")]),
        Err(ParseError::MissingContractName(p)) if p == "f:"
    ));
}

#[test]
fn parse_missing_address() {
    assert!(matches!(
        Settings::parse_libraries(vec![s("f:c=")]),
        Err(ParseError::MissingAddress(p)) if p == "f:c"
    ));
}

#[test]
fn parse_contract_name_keeps_colons() {
    let libs = Settings::parse_libraries(vec![s("f:c:extra=a")]).ok().unwrap();
    assert_eq!(libs.get("f", "c:extra"), Some(s("a")));
}

#[test]
fn parse_address_keeps_later_equals() {
    let libs = Settings::parse_libraries(vec![s("f:c=a=b")]).ok().unwrap();
    assert_eq!(libs.get("f", "c"), Some(s("a=b")));
}

#[test]
fn parse_error_position_is_reported() {
    assert!(matches!(
        Settings::parse_libraries(vec![s("f:c=a"), s("bad")]),
        Err(ParseError::MissingPath(1))
    ));
}

#[test]
fn parse_fails_fast_on_first_error() {
    assert!(matches!(
        Settings::parse_libraries(vec![s("noequals"), s("f:c=")]),
        Err(ParseError::MissingPath(0))
    ));
}

#[test]
fn parse_sorts_files_and_contracts() {
    let libs = Settings::parse_libraries(vec![s("b:y=2"), s("a:x=1"), s("b:w=3")]).ok().unwrap();
    assert_eq!(libs.file_count(), 2);
    match libs.to_node() {
        Node::Object(files) => {
            assert_eq!(files.len(), 2);
            assert_eq!(files[0].0, "a");
            assert_eq!(files[1].0, "b");
            match &files[1].1 {
                Node::Object(inner) => {
                    assert_eq!(inner.len(), 2);
                    assert_eq!(inner[0].0, "w");
                    assert_eq!(inner[1].0, "y");
                },
                _ => panic!("inner node is not an object"),
            }
        },
        _ => panic!("libraries node is not an object"),
    }
}

#[test]
fn constructor_wraps_and_forces_via_ir() {
    let st = Settings::new(
        None,
        Libraries::new(),
        None,
        Selection::new(Node::Boolean(true)),
        Optimizer::new(None, None),
        None,
        None,
    );
    assert_eq!(st.via_ir, Some(true));
    assert!(st.libraries.is_some());
    assert!(st.output_selection.is_some());
    assert!(st.evm_version.is_none());
    assert!(st.remappings.is_none());
}

#[test]
fn normalize_clears_polkavm_and_is_idempotent() {
    let mut st = Settings::new(
        Some(EvmVersion::Cancun),
        Libraries::new(),
        None,
        Selection::new(Node::Boolean(true)),
        Optimizer::new(Some(true), Some(true)),
        None,
        Some(PolkaVM::new(Node::Boolean(false))),
    );
    st.normalize();
    assert!(st.polkavm.is_none());
    assert_eq!(st.optimizer.enabled, Some(true));
    assert_eq!(st.optimizer.fallback_to_optimizing_for_size, None);
    assert_eq!(st.via_ir, Some(true));
    st.normalize();
    assert!(st.polkavm.is_none());
    assert_eq!(st.optimizer.enabled, Some(true));
    assert_eq!(st.optimizer.fallback_to_optimizing_for_size, None);
    assert_eq!(st.via_ir, Some(true));
    assert_eq!(st.evm_version, Some(EvmVersion::Cancun));
}

#[test]
fn document_round_trip_all_absent() {
    let st = Settings {
        evm_version: None,
        libraries: None,
        remappings: None,
        output_selection: None,
        via_ir: None,
        optimizer: Optimizer::new(None, None),
        metadata: None,
        polkavm: None,
    };
    let doc = st.to_document();
    let back = Settings::from_document(&doc).ok().unwrap();
    assert!(back.evm_version.is_none());
    assert!(back.libraries.is_none());
    assert!(back.remappings.is_none());
    assert!(back.output_selection.is_none());
    assert!(back.via_ir.is_none());
    assert!(back.metadata.is_none());
    assert!(back.polkavm.is_none());
    assert_eq!(back.optimizer.enabled, None);
    assert_eq!(back.optimizer.fallback_to_optimizing_for_size, None);
}

#[test]
fn document_round_trip_full() {
    let libs = Settings::parse_libraries(vec![s("f:c=a")]).ok().unwrap();
    let rem = Remappings::from_vec(vec![s("b=c"), s("a=b"), s("b=c")]);
    let st = Settings::new(
        Some(EvmVersion::London),
        libs,
        Some(rem),
        Selection::new(Node::Text(s("*"))),
        Optimizer::new(Some(true), Some(false)),
        Some(Metadata::new(Node::Boolean(true))),
        Some(PolkaVM::new(Node::Boolean(false))),
    );
    let doc = st.to_document();
    let back = Settings::from_document(&doc).ok().unwrap();
    assert_eq!(back.evm_version, Some(EvmVersion::London));
    assert!(back.via_ir.is_none());
    assert_eq!(back.libraries.as_ref().unwrap().get("f", "c"), Some(s("a")));
    assert_eq!(back.remappings.as_ref().unwrap().len(), 2);
    assert!(back.remappings.as_ref().unwrap().contains("a=b"));
    assert!(back.remappings.as_ref().unwrap().contains("b=c"));
    assert_eq!(back.optimizer.enabled, Some(true));
    assert_eq!(back.optimizer.fallback_to_optimizing_for_size, Some(false));
    assert!(matches!(&back.output_selection.as_ref().unwrap().content,
        Node::Text(t) if t == "*"));
    assert!(matches!(&back.metadata.as_ref().unwrap().content, Node::Boolean(true)));
    assert!(matches!(&back.polkavm.as_ref().unwrap().content, Node::Boolean(false)));
}

#[test]
fn via_ir_in_document_is_ignored_on_read() {
    let doc = Node::Object(vec![
        (s("viaIR"), Node::Boolean(true)),
        (s("optimizer"), Node::Object(vec![])),
    ]);
    let back = Settings::from_document(&doc).ok().unwrap();
    assert!(back.via_ir.is_none());
}

#[test]
fn from_document_requires_optimizer() {
    assert!(matches!(
        Settings::from_document(&Node::Object(vec![])),
        Err(DocError::BadOptimizer)
    ));
}

#[test]
fn from_document_rejects_non_object() {
    assert!(matches!(
        Settings::from_document(&Node::Boolean(true)),
        Err(DocError::NotAnObject)
    ));
}

#[test]
fn from_document_rejects_unknown_version_tag() {
    let doc = Node::Object(vec![
        (s("evmVersion"), Node::Text(s("notaversion"))),
        (s("optimizer"), Node::Object(vec![])),
    ]);
    assert!(matches!(Settings::from_document(&doc), Err(DocError::BadEvmVersion)));
}

#[test]
fn from_document_rejects_bad_libraries() {
    let doc = Node::Object(vec![
        (s("libraries"), Node::Boolean(true)),
        (s("optimizer"), Node::Object(vec![])),
    ]);
    assert!(matches!(Settings::from_document(&doc), Err(DocError::BadLibraries)));
}

#[test]
fn from_document_rejects_bad_remappings() {
    let doc = Node::Object(vec![
        (s("remappings"), Node::List(vec![Node::Boolean(true)])),
        (s("optimizer"), Node::Object(vec![])),
    ]);
    assert!(matches!(Settings::from_document(&doc), Err(DocError::BadRemappings)));
}

#[test]
fn from_document_reads_fields() {
    let doc = Node::Object(vec![
        (s("evmVersion"), Node::Text(s("shanghai"))),
        (
            s("libraries"),
            Node::Object(vec![(
                s("f.sol"),
                Node::Object(vec![(s("C"), Node::Text(s("0x1")))]),
            )]),
        ),
        (s("remappings"), Node::List(vec![Node::Text(s("x=y"))])),
        (s("optimizer"), Node::Object(vec![(s("enabled"), Node::Boolean(false))])),
        (s("ignoredExtra"), Node::Boolean(true)),
    ]);
    let back = Settings::from_document(&doc).ok().unwrap();
    assert_eq!(back.evm_version, Some(EvmVersion::Shanghai));
    assert_eq!(back.libraries.as_ref().unwrap().get("f.sol", "C"), Some(s("0x1")));
    assert!(back.remappings.as_ref().unwrap().contains("x=y"));
    assert_eq!(back.optimizer.enabled, Some(false));
    assert!(back.via_ir.is_none());
}

#[test]
fn evm_version_tags_round_trip() {
    assert_eq!(EvmVersion::from_tag("cancun"), Some(EvmVersion::Cancun));
    assert_eq!(EvmVersion::from_tag("tangerineWhistle"), Some(EvmVersion::TangerineWhistle));
    assert_eq!(EvmVersion::from_tag("nope"), None);
    assert_eq!(EvmVersion::Cancun.tag(), "cancun");
    assert_eq!(EvmVersion::Prague.tag(), "prague");
    assert_eq!(EvmVersion::SpuriousDragon.tag(), "spuriousDragon");
}

#[test]
fn remappings_sorted_and_deduplicated() {
    let rem = Remappings::from_vec(vec![s("z=1"), s("a=2"), s("z=1")]);
    assert_eq!(rem.len(), 2);
    assert!(rem.contains("z=1"));
    assert!(rem.contains("a=2"));
    assert!(!rem.contains("b=3"));
    match rem.to_node() {
        Node::List(items) => {
            assert_eq!(items.len(), 2);
            assert!(matches!(&items[0], Node::Text(t) if t == "a=2"));
            assert!(matches!(&items[1], Node::Text(t) if t == "z=1"));
        },
        _ => panic!("remappings node is not a list"),
    }
}

#[test]
fn serialized_document_omits_absent_and_renames_via_ir() {
    let st = Settings::new(
        None,
        Libraries::new(),
        None,
        Selection::new(Node::Boolean(true)),
        Optimizer::new(None, None),
        None,
        None,
    );
    match st.to_document() {
        Node::Object(fields) => {
            let names: Vec<&str> = fields.iter().map(|p| p.0.as_str()).collect();
            assert_eq!(names, vec!["libraries", "outputSelection", "viaIR", "optimizer"]);
            assert!(matches!(fields[2].1, Node::Boolean(true)));
        },
        _ => panic!("settings document is not an object"),
    }
}

#[test]
fn serialized_document_orders_all_fields() {
    let st = Settings::new(
        Some(EvmVersion::Paris),
        Libraries::new(),
        Some(Remappings::new()),
        Selection::new(Node::Boolean(true)),
        Optimizer::new(Some(true), None),
        Some(Metadata::new(Node::Boolean(true))),
        Some(PolkaVM::new(Node::Boolean(true))),
    );
    match st.to_document() {
        Node::Object(fields) => {
            let names: Vec<&str> = fields.iter().map(|p| p.0.as_str()).collect();
            assert_eq!(
                names,
                vec![
                    "evmVersion",
                    "libraries",
                    "remappings",
                    "outputSelection",
                    "viaIR",
                    "optimizer",
                    "metadata",
                    "polkavm"
                ]
            );
            assert!(matches!(&fields[0].1, Node::Text(t) if t == "paris"));
        },
        _ => panic!("settings document is not an object"),
    }
}

#[test]
fn parse_empty_file_name_is_allowed() {
    let libs = Settings::parse_libraries(vec![s(":c=a")]).ok().unwrap();
    assert_eq!(libs.get("", "c"), Some(s("a")));
}

#[test]
fn parse_empty_binding_misses_path() {
    assert!(matches!(
        Settings::parse_libraries(vec![s("")]),
        Err(ParseError::MissingPath(0))
    ));
}

#[test]
fn parse_equals_only_misses_file_name() {
    assert!(matches!(
        Settings::parse_libraries(vec![s("=a")]),
        Err(ParseError::MissingFileName(p)) if p.is_empty()
    ));
}

#[test]
fn parse_handles_non_ascii_text() {
    let libs = Settings::parse_libraries(vec![s("αβ.sol:Γδ=0xῳ1")]).ok().unwrap();
    assert_eq!(libs.get("αβ.sol", "Γδ"), Some(s("0xῳ1")));
}
