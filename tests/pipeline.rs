use std::collections::HashMap;
use translate_comments::commands::{
    dedup, detect_language, fix_marker, is_in_target_language, mark_translation, partition,
    reconcile, select_untranslated, to_cache_map, CodeComment,
};
use translate_comments::gpt::QueryResult;

fn comment(text: &str, checksum: u64) -> CodeComment {
    CodeComment { text: text.to_string(), text_checksum: checksum }
}

fn result(text: &str, translation: &str, checksum: u64) -> QueryResult {
    QueryResult {
        text: text.to_string(),
        text_translation: translation.to_string(),
        text_checksum: checksum,
    }
}

fn sorted(mut v: Vec<QueryResult>) -> Vec<QueryResult> {
    v.sort_by_key(|q| q.text_checksum);
    v
}

#[test]
fn dedup_keeps_last_text_per_checksum() {
    let comments = vec![comment("a", 1), comment("b", 2), comment("a2", 1)];
    let d = dedup(&comments);
    assert_eq!(d.len(), 2);
    assert_eq!(d[0].text, "a2");
    assert_eq!(d[0].text_checksum, 1);
    assert_eq!(d[1].text, "b");
}

#[test]
fn dedup_of_nothing_is_empty() {
    assert!(dedup(&vec![]).is_empty());
}

#[test]
fn duplicate_comments_give_one_entry() {
    let comments = vec![comment("// same", 9), comment("// same", 9), comment("// same", 9)];
    let d = dedup(&comments);
    let plan = partition(&d, &HashMap::new(), &"es".to_string());
    assert_eq!(plan.requests.len(), 1);
    let fresh = vec![result("// same", "// igual", 9)];
    let r = reconcile(&plan.resolved, &fresh);
    assert_eq!(r.len(), 1);
    assert_eq!(r[0].text_translation, "// igual");
}

#[test]
fn scenario_three_comments_two_requests() {
    let comments = vec![comment("// fix bug", 11), comment("// fix bug", 11), comment("// add feature", 22)];
    let d = dedup(&comments);
    assert_eq!(d.len(), 2);
    let plan = partition(&d, &HashMap::new(), &"es".to_string());
    assert!(plan.resolved.is_empty());
    assert_eq!(plan.requests.len(), 2);
    assert_eq!(plan.requests[0].text, "// fix bug");
    assert_eq!(plan.requests[0].language, "es");
    assert_eq!(plan.requests[1].text_checksum, 22);
    let fresh = vec![
        result("// add feature", "agregar función", 22),
        result("// fix bug", "// corregir error", 11),
    ];
    let r = reconcile(&plan.resolved, &fresh);
    assert_eq!(r.len(), 2);
    let cache = to_cache_map(&r);
    assert_eq!(cache.len(), 2);
    assert_eq!(cache[&22].text_translation, "// agregar función");
    assert_eq!(cache[&11].text_translation, "// corregir error");
}

#[test]
fn cached_checksums_are_not_requested() {
    let mut cache = HashMap::new();
    cache.insert(1u64, result("// one", "// uno", 1));
    let d = dedup(&vec![comment("// one", 1), comment("// two", 2)]);
    let plan = partition(&d, &cache, &"es".to_string());
    assert_eq!(plan.requests.len(), 1);
    assert_eq!(plan.requests[0].text_checksum, 2);
    assert_eq!(plan.resolved.len(), 1);
    assert_eq!(plan.resolved[0].text_translation, "// uno");
    let r = sorted(reconcile(&plan.resolved, &vec![result("// two", "dos", 2)]));
    assert_eq!(r[0].text_translation, "// uno");
    assert_eq!(r[1].text_translation, "// dos");
}

#[test]
fn second_run_uses_cache_only() {
    let comments = vec![comment("// fix bug", 11), comment("// add feature", 22)];
    let d = dedup(&comments);
    let plan = partition(&d, &HashMap::new(), &"es".to_string());
    let fresh = vec![
        result("// fix bug", "corregir error", 11),
        result("// add feature", "agregar función", 22),
    ];
    let first = sorted(reconcile(&plan.resolved, &fresh));
    let cache = to_cache_map(&first);
    let again = partition(&dedup(&comments), &cache, &"es".to_string());
    assert!(again.requests.is_empty());
    let second = sorted(reconcile(&again.resolved, &vec![]));
    assert_eq!(second.len(), first.len());
    for (a, b) in first.iter().zip(second.iter()) {
        assert_eq!(a.text, b.text);
        assert_eq!(a.text_translation, b.text_translation);
        assert_eq!(a.text_checksum, b.text_checksum);
    }
}

#[test]
fn marker_is_kept_on_translation() {
    assert_eq!(fix_marker("// fix bug", "corrige el error".to_string()), "// corrige el error");
}

#[test]
fn marker_after_leading_space() {
    assert_eq!(fix_marker("    // fix bug", "corrige".to_string()), "// corrige");
}

#[test]
fn marker_not_doubled() {
    assert_eq!(fix_marker("// fix bug", "  // corrige".to_string()), "  // corrige");
}

#[test]
fn marker_only_for_line_comments() {
    assert_eq!(fix_marker("# fix bug", "corrige".to_string()), "corrige");
    assert_eq!(fix_marker("/* fix bug */", "corrige".to_string()), "corrige");
}

#[test]
fn mark_translation_on_trimmed_texts() {
    assert_eq!(mark_translation("// a", "b", "  b".to_string()), "//   b");
    assert_eq!(mark_translation("// a", "// b", "// b".to_string()), "// b");
}

#[test]
fn fresh_result_replaces_cached_one() {
    let resolved = vec![result("// a", "// old", 5)];
    let fresh = vec![result("// a", "// new", 5)];
    let r = reconcile(&resolved, &fresh);
    assert_eq!(r.len(), 1);
    assert_eq!(r[0].text_translation, "// new");
}

#[test]
fn select_keeps_other_languages() {
    let comments = vec![comment("a", 1), comment("b", 2), comment("c", 3)];
    let langs = vec!["eng".to_string(), "spa".to_string(), "unknown".to_string()];
    let kept = select_untranslated(&comments, &langs, &"eng".to_string());
    assert_eq!(kept.len(), 2);
    assert_eq!(kept[0].text, "b");
    assert_eq!(kept[1].text, "c");
}

#[test]
fn detects_english() {
    let text = "This is a comment that explains how the function works in plain English words.";
    assert_eq!(detect_language(text), "eng");
    assert!(is_in_target_language(text, &"eng".to_string()));
    assert!(!is_in_target_language(text, &"spa".to_string()));
}

#[test]
fn undetectable_text_is_unknown() {
    assert_eq!(detect_language(""), "unknown");
}

#[test]
fn rewrite_replaces_each_comment() {
    let source = "fn f() {} // fix bug\n// fix bug\n// add feature\n";
    let results = vec![
        result("// fix bug", "// corregir error", 1),
        result("// add feature", "// agregar función", 2),
    ];
    assert_eq!(
        translate_comments::commands::rewrite(source, &results),
        "fn f() {} // corregir error\n// corregir error\n// agregar función\n"
    );
}

#[test]
fn plan_filters_dedups_and_splits() {
    let comments = vec![
        comment("// fix bug", 11),
        comment("// already english", 33),
        comment("// fix bug", 11),
        comment("// add feature", 22),
    ];
    let langs = vec!["spa".to_string(), "eng".to_string(), "spa".to_string(), "spa".to_string()];
    let mut cache = HashMap::new();
    cache.insert(22u64, result("// add feature", "// add feature (en)", 22));
    let p = translate_comments::commands::plan(&comments, &langs, &cache, &"eng".to_string());
    assert_eq!(p.requests.len(), 1);
    assert_eq!(p.requests[0].text, "// fix bug");
    assert_eq!(p.requests[0].language, "eng");
    assert_eq!(p.resolved.len(), 1);
    assert_eq!(p.resolved[0].text_translation, "// add feature (en)");
}
