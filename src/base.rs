//! Building blocks shared by the domain: the error type and the marker traits
//! for value objects, entities, aggregates and events.

use vstd::prelude::*;

verus! {

/// Immutable objects compared by their attributes.
pub trait ValueObject: Clone + PartialEq + Eq + core::fmt::Debug {

}

/// Objects with an identity that stays the same while their attributes change.
pub trait Entity: core::fmt::Debug {
    type Id: ValueObject;

    fn id(&self) -> &Self::Id;
}

/// Entities that are the entry point of a consistency boundary.
pub trait AggregateRoot: Entity {
    /// Takes note of an event that concerns the aggregate.
    fn apply_event(&mut self, event: &crate::events::DomainEventEnum);
}

/// Something that happened in the domain.
pub trait DomainEvent: core::fmt::Debug {
    /// The name of the kind of event.
    spec fn kind_name(&self) -> Seq<char>;

    /// The identity of the aggregate (or directory) that the event concerns.
    spec fn subject(&self) -> Seq<char>;

    fn event_type(&self) -> (r: &'static str)
        ensures
            r@ == self.kind_name(),
    ;

    fn aggregate_id(&self) -> (r: String)
        ensures
            r@ == self.subject(),
    ;
}

/// Errors of domain operations.
#[derive(Debug, Clone, PartialEq, Eq)]
pub enum DomainError {
    /// A primitive value failed validation.
    InvalidValue(String),
    /// An entity required by the operation is absent.
    NotFound(String),
    /// Reserved for business rules; no operation reports it at present.
    BusinessRuleViolation(String),
    /// A structural rule was violated, or the storage layer failed.
    InvalidOperation(String),
}

pub type DomainResult<T> = Result<T, DomainError>;

pub open spec fn invalid_value_label() -> Seq<char> {
    seq!['I', 'n', 'v', 'a', 'l', 'i', 'd', ' ', 'v', 'a', 'l', 'u', 'e', ':', ' ']
}

pub open spec fn not_found_label() -> Seq<char> {
    seq!['N', 'o', 't', ' ', 'f', 'o', 'u', 'n', 'd', ':', ' ']
}

pub open spec fn business_rule_label() -> Seq<char> {
    seq![
        'B', 'u', 's', 'i', 'n', 'e', 's', 's', ' ', 'r', 'u', 'l', 'e', ' ', 'v', 'i', 'o', 'l',
        'a', 't', 'i', 'o', 'n', ':', ' ',
    ]
}

pub open spec fn invalid_operation_label() -> Seq<char> {
    seq![
        'I', 'n', 'v', 'a', 'l', 'i', 'd', ' ', 'o', 'p', 'e', 'r', 'a', 't', 'i', 'o', 'n', ':',
        ' ',
    ]
}

impl DomainError {
    /// The message carried by the error.
    pub open spec fn message(&self) -> Seq<char> {
        match self {
            DomainError::InvalidValue(m) => m@,
            DomainError::NotFound(m) => m@,
            DomainError::BusinessRuleViolation(m) => m@,
            DomainError::InvalidOperation(m) => m@,
        }
    }

    /// The human-readable label of the error's kind.
    pub open spec fn label(&self) -> Seq<char> {
        match self {
            DomainError::InvalidValue(_) => invalid_value_label(),
            DomainError::NotFound(_) => not_found_label(),
            DomainError::BusinessRuleViolation(_) => business_rule_label(),
            DomainError::InvalidOperation(_) => invalid_operation_label(),
        }
    }

    /// The error rendered for people: its kind's label followed by its message.
    pub fn to_string(&self) -> (r: String)
        ensures
            r@ == self.label() + self.message(),
    {
        let (label, msg) = match self {
            DomainError::InvalidValue(m) => (
                vec!['I', 'n', 'v', 'a', 'l', 'i', 'd', ' ', 'v', 'a', 'l', 'u', 'e', ':', ' '],
                m,
            ),
            DomainError::NotFound(m) => (vec!['N', 'o', 't', ' ', 'f', 'o', 'u', 'n', 'd', ':', ' '], m),
            DomainError::BusinessRuleViolation(m) => (
                vec![
                    'B', 'u', 's', 'i', 'n', 'e', 's', 's', ' ', 'r', 'u', 'l', 'e', ' ', 'v',
                    'i', 'o', 'l', 'a', 't', 'i', 'o', 'n', ':', ' ',
                ],
                m,
            ),
            DomainError::InvalidOperation(m) => (
                vec![
                    'I', 'n', 'v', 'a', 'l', 'i', 'd', ' ', 'o', 'p', 'e', 'r', 'a', 't', 'i',
                    'o', 'n', ':', ' ',
                ],
                m,
            ),
        };
        proof {
            assert(label@ =~= self.label());
        }
        let head = crate::text::string_of(label.as_slice());
        head.concat(msg.as_str())
    }
}

} // verus!
