use pe_study::config::{AppConfig, ServerConfig};
use pe_study::response::{DefaultResponse, PaginateInfo};
use pe_study::PeError;

#[test]
fn get_addr_fills_in_the_defaults() {
    let config = AppConfig { server: ServerConfig { host: None, port: None } };
    assert_eq!(config.get_addr(), "0.0.0.0:8080");
}

#[test]
fn get_addr_uses_the_configured_values() {
    let config = AppConfig {
        server: ServerConfig { host: Some("127.0.0.1".to_string()), port: Some(9) },
    };
    assert_eq!(config.get_addr(), "127.0.0.1:9");
}

#[test]
fn responses_build_code_and_message() {
    let ok = DefaultResponse::success();
    assert_eq!(ok.code, 0);
    assert!(ok.message.is_none());

    let err = DefaultResponse::error();
    assert_eq!(err.code, 500);
    assert_eq!(err.message.as_deref(), Some("\u{64cd}\u{4f5c}\u{5931}\u{8d25}"));

    let custom = DefaultResponse::success().code(404).msg("missing".to_string());
    assert_eq!(custom.code, 404);
    assert_eq!(custom.message.as_deref(), Some("missing"));
}

#[test]
fn paginate_info_defaults_to_zero() {
    let info = PaginateInfo::default();
    assert_eq!(info.total, 0);
    assert_eq!(info.pages, 0);
}

#[test]
fn error_kinds_name_themselves() {
    assert_eq!(PeError::TruncatedInput.message(), "truncated input");
    assert_eq!(PeError::UnresolvableRva.message(), "unresolvable rva");
    assert_eq!(PeError::InvalidAddress.message(), "invalid address");
    assert_eq!(PeError::ArithmeticOverflow.message(), "arithmetic overflow");
    assert_eq!(PeError::ArithmeticUnderflow.message(), "arithmetic underflow");
    assert_eq!(PeError::SectionTableOutOfBounds.message(), "section table out of bounds");
    assert_eq!(PeError::MalformedBynameTable.message(), "malformed byname table");
}
