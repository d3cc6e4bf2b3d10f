use pg2sqlx::schema_parser::SchemaParser;
use pg2sqlx::yaml_updater::Config;
use pg2sqlx::yaml_updater::ModelConfig;
use pg2sqlx::yaml_updater::TypeMapping;
use pg2sqlx::yaml_updater::YamlUpdater;

fn empty_config() -> Config {
    Config {
        model: ModelConfig { types_map: Vec::new() },
    }
}

fn mapping(null_type: &str, base_type: &str, pkg: Option<&str>) -> TypeMapping {
    TypeMapping {
        null_type: null_type.to_string(),
        base_type: base_type.to_string(),
        pkg: pkg.map(|s| s.to_string()),
    }
}

#[test]
fn enum_mapping_is_nullable_string() {
    let mut u = YamlUpdater::with_config(empty_config());
    u.add_enum_mapping("mood");
    let entries = u.get_sorted_types_map();
    assert_eq!(entries.len(), 1);
    assert_eq!(entries[0].0, "mood");
    assert_eq!(entries[0].1.null_type, "sql.NullString");
    assert_eq!(entries[0].1.base_type, "string");
    assert!(entries[0].1.pkg.is_none());
}

#[test]
fn vector_mapping_names_support_library() {
    let mut u = YamlUpdater::with_config(empty_config());
    u.add_vector_mapping();
    let entries = u.get_sorted_types_map();
    assert_eq!(entries.len(), 1);
    assert_eq!(entries[0].0, "vector");
    assert_eq!(entries[0].1.null_type, "sql.NullString");
    assert_eq!(entries[0].1.base_type, "string");
    assert_eq!(
        entries[0].1.pkg.as_deref(),
        Some("github.com/pgvector/pgvector-go")
    );
}

#[test]
fn existing_entry_is_overwritten() {
    let config = Config {
        model: ModelConfig {
            types_map: vec![("mood".to_string(), mapping("sql.NullInt64", "int64", None))],
        },
    };
    let mut u = YamlUpdater::with_config(config);
    u.add_enum_mapping("mood");
    let entries = u.get_sorted_types_map();
    assert_eq!(entries.len(), 1);
    assert_eq!(entries[0].1.base_type, "string");
    assert_eq!(entries[0].1.null_type, "sql.NullString");
}

#[test]
fn untouched_entries_are_preserved() {
    let config = Config {
        model: ModelConfig {
            types_map: vec![(
                "money".to_string(),
                mapping("sql.NullFloat64", "float64", None),
            )],
        },
    };
    let mut u = YamlUpdater::with_config(config);
    u.add_enum_mapping("mood");
    let entries = u.get_sorted_types_map();
    assert_eq!(entries.len(), 2);
    assert_eq!(entries[0].0, "money");
    assert_eq!(entries[0].1.base_type, "float64");
    assert_eq!(entries[1].0, "mood");
}

#[test]
fn sorted_view_is_ascending_whatever_the_start_order() {
    let config = Config {
        model: ModelConfig {
            types_map: vec![
                ("zebra".to_string(), mapping("a", "b", None)),
                ("alpha".to_string(), mapping("c", "d", None)),
                ("mid".to_string(), mapping("e", "f", None)),
            ],
        },
    };
    let mut u = YamlUpdater::with_config(config);
    u.add_enum_mapping("beta");
    u.add_vector_mapping();
    let entries = u.get_sorted_types_map();
    assert_eq!(entries.len(), 5);
    for w in entries.windows(2) {
        assert!(w[0].0 < w[1].0);
    }
    let keys: Vec<&str> = entries.iter().map(|e| e.0.as_str()).collect();
    assert_eq!(keys, vec!["alpha", "beta", "mid", "vector", "zebra"]);
}

#[test]
fn merge_twice_changes_nothing() {
    let text = "CREATE TYPE status AS ENUM ('active','inactive');\nx VECTOR(3)\n";
    let mut parser = SchemaParser::with_verbose(false);
    parser.parse_schema_contents(text);
    let has_vector = !parser.vector_types.is_empty();

    let start = Config {
        model: ModelConfig {
            types_map: vec![("money".to_string(), mapping("sql.NullFloat64", "float64", None))],
        },
    };
    let mut once = YamlUpdater::with_config(start.clone());
    once.merge_types(&parser.enum_types, has_vector);
    let mut twice = YamlUpdater::with_config(start);
    twice.merge_types(&parser.enum_types, has_vector);
    twice.merge_types(&parser.enum_types, has_vector);

    let a = once.get_sorted_types_map();
    let b = twice.get_sorted_types_map();
    assert_eq!(a.len(), b.len());
    for (x, y) in a.iter().zip(b.iter()) {
        assert_eq!(x.0, y.0);
        assert_eq!(x.1.null_type, y.1.null_type);
        assert_eq!(x.1.base_type, y.1.base_type);
        assert_eq!(x.1.pkg, y.1.pkg);
    }
}

#[test]
fn scenario_scan_then_merge() {
    let text =
        "CREATE TYPE status AS ENUM (\n  'active', -- comment\n  'inactive'\n);\nCREATE TABLE d (e VECTOR(384));\n";
    let mut parser = SchemaParser::with_verbose(false);
    parser.parse_schema_contents(text);
    let mut u = YamlUpdater::with_config(empty_config());
    u.merge_types(&parser.enum_types, !parser.vector_types.is_empty());
    let entries = u.get_sorted_types_map();
    assert_eq!(entries.len(), 2);
    assert_eq!(entries[0].0, "status");
    assert_eq!(entries[0].1.null_type, "sql.NullString");
    assert_eq!(entries[0].1.base_type, "string");
    assert!(entries[0].1.pkg.is_none());
    assert_eq!(entries[1].0, "vector");
    assert_eq!(
        entries[1].1.pkg.as_deref(),
        Some("github.com/pgvector/pgvector-go")
    );
}

#[test]
fn config_roundtrip_through_updater() {
    let config = Config {
        model: ModelConfig {
            types_map: vec![("k".to_string(), mapping("n", "t", Some("p")))],
        },
    };
    let u = YamlUpdater::with_config(config);
    let seen = u.config();
    assert_eq!(seen.model.types_map.len(), 1);
    assert_eq!(seen.model.types_map[0].0, "k");
    assert_eq!(seen.model.types_map[0].1.pkg.as_deref(), Some("p"));
}
