//! Data-protection bookkeeping that the record-keeping application carries
//! alongside synchronization: the retention policy the deployment runs
//! under, and validation of data-subject requests.

use vstd::prelude::*;

verus! {

/// Retention periods, in days, for the data categories the application
/// stores.
#[derive(Clone, Copy, Debug, PartialEq, Eq, Structural)]
pub struct DataRetentionPolicy {
    pub observation_retention_days: i32,
    pub attachment_retention_days: i32,
    pub audit_log_retention_days: i32,
    pub anonymization_after_days: i32,
}

/// Entry point for the data-protection workflows.
pub struct GdprManager;

impl GdprManager {
    /// Creates a manager; it carries no state of its own.
    pub fn new() -> (r: GdprManager) {
        GdprManager
    }

    /// The fixed retention policy of this deployment: observations and
    /// attachments for one year, audit logs for seven years, anonymization
    /// after three years.
    pub fn get_data_retention_policy(&self) -> (r: DataRetentionPolicy)
        ensures
            r.observation_retention_days == 365,
            r.attachment_retention_days == 365,
            r.audit_log_retention_days == 2555,
            r.anonymization_after_days == 1095,
    {
        DataRetentionPolicy {
            observation_retention_days: 365,
            attachment_retention_days: 365,
            audit_log_retention_days: 2555,
            anonymization_after_days: 1095,
        }
    }

    /// Accepts every data-subject request; identity and legal-basis checks
    /// happen outside this subsystem.
    pub fn validate_data_subject_request(&self, student_id: i64, request_type: &str) -> (r: Result<
        bool,
        (),
    >)
        ensures
            r == Ok::<bool, ()>(true),
    {
        let _ = student_id;
        let _ = request_type;
        Ok(true)
    }
}

} // verus!
