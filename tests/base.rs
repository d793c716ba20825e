use logseq_index::base::{DomainError, Entity, ValueObject};

#[derive(Debug, Clone, PartialEq, Eq)]
struct TestId(String);
impl ValueObject for TestId {}

#[derive(Debug)]
struct TestEntity {
    id: TestId,
    #[allow(dead_code)]
    value: String,
}

impl Entity for TestEntity {
    type Id = TestId;

    fn id(&self) -> &Self::Id {
        &self.id
    }
}

#[test]
fn test_entity_has_identity() {
    let entity1 = TestEntity {
        id: TestId("test-1".to_string()),
        value: "original".to_string(),
    };

    let entity2 = TestEntity {
        id: TestId("test-1".to_string()),
        value: "modified".to_string(),
    };

    assert_eq!(entity1.id(), entity2.id());
}

#[test]
fn test_domain_error_display() {
    let error = DomainError::InvalidValue("test".to_string());
    assert_eq!(error.to_string(), "Invalid value: test");
}

#[test]
fn every_error_kind_has_its_label() {
    assert_eq!(DomainError::NotFound("x".to_string()).to_string(), "Not found: x");
    assert_eq!(
        DomainError::BusinessRuleViolation("y".to_string()).to_string(),
        "Business rule violation: y"
    );
    assert_eq!(
        DomainError::InvalidOperation("z".to_string()).to_string(),
        "Invalid operation: z"
    );
}

#[test]
fn whitespace_agrees_with_std_on_every_char() {
    for u in 0u32..0x11_0000 {
        if let Some(c) = char::from_u32(u) {
            assert_eq!(logseq_index::text::is_whitespace(c), c.is_whitespace(), "code point {:x}", u);
        }
    }
}
