use stwo_cuda::dispatch::use_cpu_fallback;

#[test]
fn no_setting_keeps_every_component_on_the_device() {
    assert!(!use_cpu_fallback(None, None, None, "poseidon"));
}

#[test]
fn fallback_one_or_empty_sends_everything_to_cpu() {
    assert!(use_cpu_fallback(Some("1"), None, None, "poseidon"));
    assert!(use_cpu_fallback(Some(""), None, None, "poseidon"));
}

#[test]
fn fallback_name_keeps_only_that_component_on_the_device() {
    assert!(!use_cpu_fallback(Some("poseidon"), None, None, "poseidon"));
    assert!(use_cpu_fallback(Some("poseidon"), None, None, "wide_fibonacci"));
    // The name is compared as it is, without trimming.
    assert!(use_cpu_fallback(Some(" poseidon"), None, None, "poseidon"));
}

#[test]
fn fallback_setting_takes_precedence() {
    assert!(use_cpu_fallback(Some("1"), Some("poseidon"), Some("poseidon"), "poseidon"));
    assert!(!use_cpu_fallback(Some("poseidon"), Some("other"), None, "poseidon"));
}

#[test]
fn only_list_keeps_listed_components_on_the_device() {
    let list = Some("wide_fibonacci, poseidon ,blake");
    assert!(!use_cpu_fallback(None, list, None, "poseidon"));
    assert!(!use_cpu_fallback(None, list, None, "wide_fibonacci"));
    assert!(!use_cpu_fallback(None, list, None, "blake"));
    assert!(use_cpu_fallback(None, list, None, "plonk"));
    // An entry matches only as a whole.
    assert!(use_cpu_fallback(None, list, None, "pose"));
}

#[test]
fn only_list_takes_precedence_over_except_list() {
    assert!(use_cpu_fallback(None, Some("a"), Some("b"), "c"));
    assert!(!use_cpu_fallback(None, Some("a"), Some("a"), "a"));
}

#[test]
fn except_list_sends_listed_components_to_cpu() {
    let list = Some("\tposeidon\u{3000},plonk");
    assert!(use_cpu_fallback(None, None, list, "poseidon"));
    assert!(use_cpu_fallback(None, None, list, "plonk"));
    assert!(!use_cpu_fallback(None, None, list, "blake"));
}

#[test]
fn empty_entries_match_an_empty_name() {
    assert!(use_cpu_fallback(None, None, Some("a,,b"), ""));
    assert!(use_cpu_fallback(None, None, Some(""), ""));
    assert!(!use_cpu_fallback(None, None, Some("a,b"), ""));
    assert!(use_cpu_fallback(None, None, Some("a, "), ""));
}
