use quickset::auth::{decide_access, AccessCheck, Role};
use quickset::config::AuthLevel;
use quickset::query::{ApiResponse, ColumnDef};
use quickset::value::ColumnType;

#[test]
fn test_column_type_parsing() {
    let col = ColumnDef {
        name: "test".to_string(),
        col_type: "STRING".to_string(),
    };
    assert_eq!(col.to_column_type(), Some(ColumnType::String));

    let col = ColumnDef {
        name: "test".to_string(),
        col_type: "int".to_string(),
    };
    assert_eq!(col.to_column_type(), Some(ColumnType::Int));
}

#[test]
fn test_api_response() {
    let resp: ApiResponse<i32> = ApiResponse::ok(42);
    assert!(resp.success);
    assert_eq!(resp.data, Some(42));

    let resp: ApiResponse<i32> = ApiResponse::err("test error");
    assert!(!resp.success);
    assert_eq!(resp.error, Some("test error".to_string()));
}

#[test]
fn test_column_type_aliases() {
    for (name, expected) in [
        ("integer", Some(ColumnType::Int)),
        ("i64", Some(ColumnType::Int)),
        ("double", Some(ColumnType::Float)),
        ("f64", Some(ColumnType::Float)),
        ("text", Some(ColumnType::String)),
        ("varchar", Some(ColumnType::String)),
        ("blob", Some(ColumnType::Bytes)),
        ("binary", Some(ColumnType::Bytes)),
        ("bytes", Some(ColumnType::Bytes)),
        ("float", Some(ColumnType::Float)),
        ("decimal", None),
        ("", None),
    ] {
        let col = ColumnDef {
            name: "c".to_string(),
            col_type: name.to_string(),
        };
        assert_eq!(col.to_column_type(), expected, "alias {name}");
    }
}

#[test]
fn test_access_decisions() {
    // no credentials needed: full access granted
    assert_eq!(
        decide_access(AuthLevel::Off, true, false, None),
        AccessCheck::Granted(Role::Admin)
    );
    assert_eq!(
        decide_access(AuthLevel::Write, false, false, None),
        AccessCheck::Granted(Role::Admin)
    );
    // credentials needed and missing
    assert_eq!(
        decide_access(AuthLevel::Write, true, false, None),
        AccessCheck::Unauthorized
    );
    assert_eq!(
        decide_access(AuthLevel::All, false, true, None),
        AccessCheck::Unauthorized
    );
    // a read-only role may not write
    assert_eq!(
        decide_access(AuthLevel::Write, true, false, Some(Role::ReadOnly)),
        AccessCheck::Forbidden
    );
    // a writer may
    assert_eq!(
        decide_access(AuthLevel::Write, true, false, Some(Role::ReadWrite)),
        AccessCheck::Granted(Role::ReadWrite)
    );
    assert!(Role::ReadOnly.can_read());
    assert!(!Role::ReadOnly.can_write());
    assert!(Role::Admin.can_admin());
}
