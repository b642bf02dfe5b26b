use directory_core::condition::Condition;
use directory_core::filter::{
    GroupRequestFilter, SubStringFilter, attribute_condition, get_group_filter_expr,
};
use directory_core::pattern::like;
use directory_core::plan::list_groups_condition;
use directory_core::text::{chars_of, str_eq};
use directory_core::types::{AttributeValue, GroupId, Scalar};

fn matches_pattern(pattern: &str, text: &str) -> bool {
    like(&chars_of(pattern), &chars_of(text))
}

#[test]
fn constants_and_empty_lists_compile_to_values() {
    assert_eq!(get_group_filter_expr(GroupRequestFilter::True), Condition::Value(true));
    assert_eq!(get_group_filter_expr(GroupRequestFilter::False), Condition::Value(false));
    assert_eq!(get_group_filter_expr(GroupRequestFilter::And(Vec::new())), Condition::Value(true));
    assert_eq!(get_group_filter_expr(GroupRequestFilter::Or(Vec::new())), Condition::Value(false));
}

#[test]
fn lists_and_negation_compile_child_by_child() {
    let filter = GroupRequestFilter::And(vec![
        GroupRequestFilter::Or(vec![GroupRequestFilter::GroupId(GroupId(3)), GroupRequestFilter::False]),
        GroupRequestFilter::Not(Box::new(GroupRequestFilter::Not(Box::new(GroupRequestFilter::True)))),
    ]);
    assert_eq!(
        get_group_filter_expr(filter),
        Condition::All(vec![
            Condition::Any(vec![Condition::GroupIdEquals(GroupId(3)), Condition::Value(false)]),
            Condition::Not(Box::new(Condition::Not(Box::new(Condition::Value(true))))),
        ])
    );
}

#[test]
fn display_name_compiles_to_lower_case() {
    assert_eq!(
        get_group_filter_expr(GroupRequestFilter::DisplayName("eMpTy gRoup".to_string())),
        Condition::LowercaseDisplayNameEquals("empty group".to_string())
    );
    assert_eq!(
        get_group_filter_expr(GroupRequestFilter::DisplayName("ÄÖ".to_string())),
        Condition::LowercaseDisplayNameEquals("äö".to_string())
    );
}

#[test]
fn leaves_compile_to_their_conditions() {
    assert_eq!(
        get_group_filter_expr(GroupRequestFilter::Uuid("a-B".to_string())),
        Condition::UuidEquals("a-B".to_string())
    );
    assert_eq!(
        get_group_filter_expr(GroupRequestFilter::Member("Bob".to_string())),
        Condition::GroupIdInMemberships("Bob".to_string())
    );
    assert_eq!(
        get_group_filter_expr(GroupRequestFilter::CustomAttributePresent("gid".to_string())),
        Condition::GroupIdInAttributes("gid".to_string(), None)
    );
    assert_eq!(
        get_group_filter_expr(GroupRequestFilter::AttributeEquality(
            "gid".to_string(),
            AttributeValue::Single(Scalar::Integer(512)),
        )),
        Condition::GroupIdInAttributes("gid".to_string(), Some(vec![0x00, 0x02, 0, 0, 0, 0, 0, 0x80]))
    );
    assert_eq!(
        attribute_condition("gid".to_string(), Some(vec![1])),
        Condition::GroupIdInAttributes("gid".to_string(), Some(vec![1]))
    );
}

#[test]
fn substring_filter_compiles_to_a_pattern() {
    let filter = SubStringFilter {
        initial: Some("be".to_owned()),
        any: vec!["sT".to_owned()],
        final_: Some("P".to_owned()),
    };
    assert_eq!(filter.to_sql_filter(), "be%st%p");
    assert_eq!(
        get_group_filter_expr(GroupRequestFilter::DisplayNameSubString(filter)),
        Condition::LowercaseDisplayNameLike("be%st%p".to_string())
    );
    let bare = SubStringFilter { initial: None, any: Vec::new(), final_: None };
    assert_eq!(bare.to_sql_filter(), "%");
    let middle = SubStringFilter {
        initial: None,
        any: vec!["A".to_owned(), "b".to_owned()],
        final_: None,
    };
    assert_eq!(middle.to_sql_filter(), "%a%b%");
}

#[test]
fn listing_condition_wraps_the_compiled_filter() {
    assert_eq!(list_groups_condition(None), Condition::Value(true));
    assert_eq!(
        list_groups_condition(Some(GroupRequestFilter::GroupId(GroupId(1)))),
        Condition::GroupIdInGroups(Box::new(Condition::GroupIdEquals(GroupId(1))))
    );
}

#[test]
fn pattern_of_the_substring_filter_matches_best_group_only() {
    assert!(matches_pattern("be%st%p", "best group"));
    assert!(!matches_pattern("be%st%p", "worst group"));
    assert!(!matches_pattern("be%st%p", "empty group"));
    assert!(!matches_pattern("be%st%p", "Best group"));
}

#[test]
fn wildcards_match_runs_and_single_characters() {
    assert!(matches_pattern("", ""));
    assert!(!matches_pattern("", "a"));
    assert!(matches_pattern("%", ""));
    assert!(matches_pattern("%", "anything"));
    assert!(matches_pattern("%%", "x"));
    assert!(matches_pattern("a_c", "abc"));
    assert!(!matches_pattern("a_c", "ac"));
    assert!(!matches_pattern("a_c", "abbc"));
    assert!(matches_pattern("a%c", "ac"));
    assert!(matches_pattern("a%c", "abbc"));
    assert!(!matches_pattern("a%c", "abcb"));
    assert!(matches_pattern("%a%a%", "banana"));
    assert!(!matches_pattern("%a%a%a%a%", "banana"));
    assert!(matches_pattern("%na", "banana"));
    assert!(!matches_pattern("abc", "ab"));
    assert!(!matches_pattern("ab", "abc"));
    assert!(matches_pattern("_%", "a"));
    assert!(!matches_pattern("_%", ""));
}

#[test]
fn texts_are_compared_by_their_characters() {
    assert!(str_eq("abc", "abc"));
    assert!(!str_eq("abc", "abd"));
    assert!(!str_eq("abc", "ab"));
    assert!(!str_eq("", "a"));
    assert!(str_eq("", ""));
    assert_eq!(chars_of("aé€"), vec!['a', 'é', '€']);
}
