use directory_core::schema::{
    AttributeList, AttributeSchema, PublicSchema, Schema, SchemaAttributeExtractor,
    SchemaGroupAttributeExtractor, SchemaUserAttributeExtractor, get_attribute_type,
};
use directory_core::types::AttributeType;

fn names(list: &AttributeList) -> Vec<String> {
    list.attributes.iter().map(|a| a.name.clone()).collect()
}

#[test]
fn public_schema_of_empty_schema_holds_the_built_ins_in_order() {
    let schema = Schema {
        user_attributes: AttributeList { attributes: Vec::new() },
        group_attributes: AttributeList { attributes: Vec::new() },
    };
    let public = PublicSchema::from(schema);
    assert_eq!(
        names(&public.get_schema().user_attributes),
        vec!["creation_date", "display_name", "mail", "user_id", "uuid"]
    );
    assert_eq!(
        names(&public.get_schema().group_attributes),
        vec!["creation_date", "display_name", "group_id", "uuid"]
    );
    let group_id = public.get_schema().group_attributes.get_attribute_schema("group_id").unwrap();
    assert_eq!(
        *group_id,
        AttributeSchema {
            name: "group_id".to_string(),
            attribute_type: AttributeType::Integer,
            is_list: false,
            is_visible: true,
            is_editable: false,
            is_hardcoded: true,
            is_readonly: true,
        }
    );
}

fn declared(name: &str, attribute_type: AttributeType) -> AttributeSchema {
    AttributeSchema {
        name: name.to_string(),
        attribute_type,
        is_list: true,
        is_visible: false,
        is_editable: true,
        is_hardcoded: false,
        is_readonly: false,
    }
}

#[test]
fn public_schema_merges_and_sorts_by_name() {
    let schema = Schema {
        user_attributes: AttributeList {
            attributes: vec![declared("zip", AttributeType::Integer), declared("avatar", AttributeType::JpegPhoto)],
        },
        group_attributes: AttributeList {
            attributes: vec![declared("gid", AttributeType::Integer), declared("Zone", AttributeType::String)],
        },
    };
    let public = PublicSchema::from(schema);
    assert_eq!(
        names(&public.get_schema().user_attributes),
        vec!["avatar", "creation_date", "display_name", "mail", "user_id", "uuid", "zip"]
    );
    assert_eq!(
        names(&public.get_schema().group_attributes),
        vec!["Zone", "creation_date", "display_name", "gid", "group_id", "uuid"]
    );
    let gid = public.get_schema().group_attributes.get_attribute_schema("gid").unwrap();
    assert_eq!(*gid, declared("gid", AttributeType::Integer));
}

#[test]
fn declaration_of_the_administrator_stands_before_a_built_in_one_of_the_same_name() {
    let schema = Schema {
        user_attributes: AttributeList { attributes: Vec::new() },
        group_attributes: AttributeList { attributes: vec![declared("uuid", AttributeType::Integer)] },
    };
    let public = PublicSchema::from(schema);
    let list = &public.get_schema().group_attributes;
    assert_eq!(names(list), vec!["creation_date", "display_name", "group_id", "uuid", "uuid"]);
    assert_eq!(list.attributes[3], declared("uuid", AttributeType::Integer));
    assert!(list.attributes[4].is_hardcoded);
    assert_eq!(list.get_attribute_type("uuid"), Some(AttributeType::Integer));
}

#[test]
fn built_in_attributes_are_hardcoded_and_read_only_unless_editable() {
    let public = PublicSchema::from(Schema {
        user_attributes: AttributeList { attributes: Vec::new() },
        group_attributes: AttributeList { attributes: Vec::new() },
    });
    for list in [&public.get_schema().user_attributes, &public.get_schema().group_attributes] {
        for a in &list.attributes {
            assert!(a.is_hardcoded);
            assert!(a.is_visible);
            assert!(!a.is_list);
            assert_eq!(a.is_readonly, !a.is_editable);
            assert_eq!(a.is_editable, a.name == "mail" || a.name == "display_name");
        }
    }
    let users = &public.get_schema().user_attributes;
    assert_eq!(users.get_attribute_type("creation_date"), Some(AttributeType::DateTime));
    assert_eq!(users.get_attribute_type("user_id"), Some(AttributeType::String));
    assert_eq!(users.get_attribute_type("group_id"), None);
}

#[test]
fn extractors_pick_the_list_of_their_kind() {
    let public = PublicSchema::from(Schema {
        user_attributes: AttributeList { attributes: vec![declared("zip", AttributeType::Integer)] },
        group_attributes: AttributeList { attributes: vec![declared("gid", AttributeType::String)] },
    });
    assert_eq!(
        names(SchemaUserAttributeExtractor::get_attributes(&public)),
        vec!["creation_date", "display_name", "mail", "user_id", "uuid", "zip"]
    );
    assert_eq!(
        names(SchemaGroupAttributeExtractor::get_attributes(&public)),
        vec!["creation_date", "display_name", "gid", "group_id", "uuid"]
    );
    assert_eq!(get_attribute_type::<SchemaUserAttributeExtractor>(&public, "zip"), Some(AttributeType::Integer));
    assert_eq!(get_attribute_type::<SchemaGroupAttributeExtractor>(&public, "zip"), None);
    assert_eq!(get_attribute_type::<SchemaGroupAttributeExtractor>(&public, "gid"), Some(AttributeType::String));
    assert_eq!(get_attribute_type::<SchemaUserAttributeExtractor>(&public, "mail"), Some(AttributeType::String));
}
