use feathers_inspector::inspectable::{apply_validation, Inspectable, ValidationFailure};
use feathers_inspector::memory_size::{MemorySize, MemoryUnit};

#[test]
fn units_change_at_powers_of_1024() {
    assert_eq!(MemorySize::new(0).appropriate_unit(), MemoryUnit::Bytes);
    assert_eq!(MemorySize::new(1023).appropriate_unit(), MemoryUnit::Bytes);
    assert_eq!(MemorySize::new(1024).appropriate_unit(), MemoryUnit::Kilobytes);
    assert_eq!(MemorySize::new(1024 * 1024 - 1).appropriate_unit(), MemoryUnit::Kilobytes);
    assert_eq!(MemorySize::new(1024 * 1024).appropriate_unit(), MemoryUnit::Megabytes);
    assert_eq!(MemorySize::new(1024 * 1024 * 1024).appropriate_unit(), MemoryUnit::Gigabytes);
    assert_eq!(
        MemorySize::new(1024 * 1024 * 1024 * 1024).appropriate_unit(),
        MemoryUnit::Terabytes
    );
    assert_eq!(MemorySize::new(usize::MAX).appropriate_unit(), MemoryUnit::Terabytes);
}

#[test]
fn size_keeps_its_bytes() {
    assert_eq!(MemorySize::new(4096).as_bytes(), 4096);
    assert_eq!(MemorySize(17), MemorySize::new(17));
}

#[derive(Debug, Clone, PartialEq)]
struct Life {
    current: u32,
    max: u32,
}

impl Inspectable for Life {
    fn validate_change(&self, proposed_change: Self) -> Result<Self, ValidationFailure<Self>> {
        if proposed_change.max == 0 {
            Err(ValidationFailure::Uncorrectable("no life at all".to_string()))
        } else if proposed_change.current > proposed_change.max {
            Err(ValidationFailure::Correctable(Life {
                current: proposed_change.max,
                max: proposed_change.max,
            }))
        } else {
            Ok(proposed_change)
        }
    }
}

#[test]
fn a_valid_change_is_applied() {
    let mut life = Life { current: 1, max: 10 };
    assert!(life.validate_and_apply_change(Life { current: 5, max: 10 }).is_ok());
    assert_eq!(life, Life { current: 5, max: 10 });
}

#[test]
fn a_correction_is_applied() {
    let mut life = Life { current: 1, max: 10 };
    assert!(life.validate_and_apply_change(Life { current: 50, max: 20 }).is_ok());
    assert_eq!(life, Life { current: 20, max: 20 });
}

#[test]
fn without_a_correction_the_value_stays() {
    let mut life = Life { current: 1, max: 10 };
    let result = life.validate_and_apply_change(Life { current: 0, max: 0 });
    assert!(matches!(result, Err(ValidationFailure::Uncorrectable(reason)) if reason == "no life at all"));
    assert_eq!(life, Life { current: 1, max: 10 });
}

#[test]
fn apply_validation_follows_the_outcome() {
    let mut value = 1u32;
    assert!(apply_validation(&mut value, Ok(2)).is_ok());
    assert_eq!(value, 2);
    assert!(apply_validation(&mut value, Err(ValidationFailure::Correctable(3))).is_ok());
    assert_eq!(value, 3);
    let refused = apply_validation(&mut value, Err(ValidationFailure::Uncorrectable("no".to_string())));
    assert!(matches!(refused, Err(ValidationFailure::Uncorrectable(reason)) if reason == "no"));
    assert_eq!(value, 3);
}
