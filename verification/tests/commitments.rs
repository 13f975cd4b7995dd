//! The commitment function as observed through the public interface.

use match_core::commitment_of_submission;

#[test]
fn commitment_is_a_32_byte_digest() {
    let c = commitment_of_submission(7);
    assert_eq!(c.len(), 32);
    // The digest is not the submission's own encoding handed back.
    assert_ne!(c, vec![7, 0, 0, 0, 0, 0, 0, 0]);
}

#[test]
fn commitment_is_deterministic_and_binding() {
    assert_eq!(commitment_of_submission(7), commitment_of_submission(7));
    assert_ne!(commitment_of_submission(7), commitment_of_submission(8));
    assert_eq!(commitment_of_submission(0).len(), 32);
    assert_eq!(commitment_of_submission(u64::MAX).len(), 32);
    assert_ne!(
        commitment_of_submission(0),
        commitment_of_submission(u64::MAX)
    );
}
