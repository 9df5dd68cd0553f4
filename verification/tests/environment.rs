use fastctx::environment::{
    command_variables, environment_name_eq, expand_references, inheritance_enabled, keeps_value,
    overlay, persisted_variables, union_search_path, wide_units, Platform, Variable,
};

const HERE: Platform = Platform { windows: false };
const WINDOWS: Platform = Platform { windows: true };

fn pairs(entries: &[(&str, &str)]) -> Vec<Variable> {
    entries
        .iter()
        .map(|(name, value)| Variable {
            name: name.as_bytes().to_vec(),
            value: value.as_bytes().to_vec(),
        })
        .collect()
}

fn value<'a>(merged: &'a [Variable], name: &str) -> Option<&'a str> {
    merged
        .iter()
        .find(|variable| variable.name == name.as_bytes())
        .map(|variable| std::str::from_utf8(&variable.value).unwrap())
}

#[test]
fn the_host_wins_every_name_it_provides_and_absent_names_survive() {
    for platform in [HERE, WINDOWS] {
        let merged = overlay(
            &pairs(&[("JAVA_HOME", "C:/jdk21"), ("TEMP", "C:/persisted-temp")]),
            &pairs(&[("TEMP", "C:/live-temp"), ("FASTCTX_TOKEN_BUDGET", "9000")]),
            platform,
        );
        assert_eq!(value(&merged, "JAVA_HOME").unwrap(), "C:/jdk21");
        assert_eq!(value(&merged, "TEMP").unwrap(), "C:/live-temp");
        assert_eq!(value(&merged, "FASTCTX_TOKEN_BUDGET").unwrap(), "9000");
        assert_eq!(
            merged.len(),
            3,
            "a name must never appear twice: {merged:?}"
        );
    }
}

#[test]
fn the_search_path_keeps_the_live_value_first_and_only_gains_absent_entries() {
    for platform in [HERE, WINDOWS] {
        let separator = platform.path_list_separator();
        let host = format!("/live/bin{separator}/Shared/Bin");
        let persisted = format!("/shared/bin/{separator}/persisted/only{separator}");
        let merged = union_search_path(host.as_bytes(), persisted.as_bytes(), platform);
        let merged = String::from_utf8(merged).unwrap();
        assert!(
            merged.starts_with(&host),
            "live path was rewritten: {merged}"
        );
        assert!(merged.ends_with("/persisted/only"), "{merged}");
        let occurrences = merged.to_ascii_lowercase().matches("shared/bin").count();
        let expected = if platform.windows { 1 } else { 2 };
        assert_eq!(occurrences, expected, "{merged}");
    }
}

#[test]
fn unresolvable_references_stay_literal_instead_of_expanding_to_nothing() {
    let lookup = pairs(&[("SystemRoot", "C:/Windows")]);
    let expanded = |text: &str| {
        String::from_utf8(expand_references(text.as_bytes(), &lookup, WINDOWS)).unwrap()
    };
    assert_eq!(expanded("%SystemRoot%/System32"), "C:/Windows/System32");
    assert_eq!(expanded("%NOT_SET%/bin"), "%NOT_SET%/bin");
    assert_eq!(expanded("100% done"), "100% done");
}

#[test]
fn the_opt_out_is_honoured_only_for_values_that_clearly_mean_off() {
    let inherit = "FASTCTX_INHERIT_ENVIRONMENT";
    for setting in ["0", "false", "OFF", "no", " No "] {
        assert!(
            !inheritance_enabled(&pairs(&[(inherit, setting)]), HERE),
            "{setting}"
        );
    }
    for setting in ["1", "true", "on", "yes", ""] {
        assert!(
            inheritance_enabled(&pairs(&[(inherit, setting)]), HERE),
            "{setting}"
        );
    }
    assert!(inheritance_enabled(&pairs(&[("PATH", "C:/live/bin")]), HERE));
}

#[test]
fn a_derived_environment_leads_with_the_live_search_path() {
    let host = pairs(&[("PATH", "/live/bin"), ("FASTCTX_TOKEN_BUDGET", "9000")]);
    let persisted = pairs(&[("PATH", "/persisted"), ("FASTCTX_TOKEN_BUDGET", "1")]);
    let derived = command_variables(&persisted, &host, HERE);
    assert!(value(&derived, "PATH").unwrap().starts_with("/live/bin"));
    assert_eq!(value(&derived, "FASTCTX_TOKEN_BUDGET").unwrap(), "9000");
    let untouched = command_variables(&Vec::new(), &host, HERE);
    assert_eq!(value(&untouched, "PATH").unwrap(), "/live/bin");
}

#[test]
fn names_differ_by_case_except_on_windows() {
    assert!(environment_name_eq(b"Path", b"PATH", WINDOWS));
    assert!(!environment_name_eq(b"Path", b"PATH", HERE));
}

#[test]
fn user_variables_follow_system_ones() {
    let system = pairs(&[("A", "system"), ("PATH", "C:/system")]);
    let user = pairs(&[("A", "user"), ("PATH", "C:/user")]);
    let persisted = persisted_variables(&system, &user, &Vec::new(), WINDOWS);
    assert_eq!(value(&persisted, "A").unwrap(), "user");
    assert_eq!(value(&persisted, "PATH").unwrap(), "C:/user;C:/system");
}

#[test]
fn registry_values_are_wide_and_named() {
    assert_eq!(wide_units(&[b'A', 0, b'B', 0]), vec![65, 66]);
    assert!(keeps_value(1, 4));
    assert!(!keeps_value(1, 0));
    assert!(!keeps_value(3, 4));
}
