use warpdir::hooks::{bash_hook, zsh_hook};
use warpdir::text::{base_name, find_char_from, str_eq};

#[test]
fn zsh_hook_wraps_the_binary_in_the_wd_function() {
    let hook = zsh_hook("/usr/bin/warpdir".to_string());
    let expected = format!(
        "wd() {{\n    output=$({} $@)\n    status_code=$?\n    if [[ $status_code -eq 0 ]]; then\n\tcd \"$output\"\n    elif [[ \"$output\" != \"\" ]]; then\n        echo \"$output\"\n    fi\n    unset output\n    unset status_code\n}}\n",
        "/usr/bin/warpdir"
    );
    assert_eq!(hook, expected);
}

#[test]
fn bash_hook_adds_completions_around_the_wd_function() {
    let hook = bash_hook("warpdir".to_string());
    assert!(hook.starts_with("\n_wd_completions() {\n"));
    assert!(hook.contains("output=$(warpdir $@)"));
    assert!(hook.contains("COMPREPLY=($(compgen -W \"${COMPLETIONS}\" \"${COMP_WORDS[1]}\"))"));
    assert!(hook.ends_with("complete -F _wd_completions wd\n"));
    // The wrapper body is the same text the zsh hook emits.
    let zsh = zsh_hook("warpdir".to_string());
    let body = zsh.trim_start_matches("wd() {\n").to_string();
    assert!(hook.contains(&body));
}

#[test]
fn base_name_takes_the_final_component() {
    assert_eq!(base_name("/home/u/proj"), "proj");
    assert_eq!(base_name("plain"), "plain");
    assert_eq!(base_name("/"), "");
    assert_eq!(base_name("/trailing/slash/"), "");
    assert_eq!(base_name(""), "");
}

#[test]
fn str_eq_compares_characters() {
    assert!(str_eq("abc", "abc"));
    assert!(!str_eq("abc", "abd"));
    assert!(!str_eq("abc", "ab"));
    assert!(str_eq("", ""));
}

#[test]
fn find_char_from_finds_the_first_occurrence_at_or_after() {
    assert_eq!(find_char_from("a:b:c", 0, ':'), 1);
    assert_eq!(find_char_from("a:b:c", 2, ':'), 3);
    assert_eq!(find_char_from("abc", 0, ':'), 3);
    assert_eq!(find_char_from("", 0, ':'), 0);
}
