//! Backup resource records as this engine observes them: a name, a spec and
//! an optional status made of ordered transition conditions. The derived
//! status precedence (success / scheduled / running / failed) lives here.

use vstd::prelude::*;
use crate::clock::rfc3339_to_unix;
use crate::clock::rfc3339_unix;

verus! {

/// One status transition condition of a backup resource.
#[derive(Clone, Debug)]
pub struct BackupCondition {
    pub last_transition_time: Option<String>,
    pub message: Option<String>,
    pub reason: Option<String>,
    pub status: String,
    pub type_: String,
}

/// The observed status of a backup resource: an optional ordered sequence
/// of conditions.
#[derive(Clone, Debug)]
pub struct BackupStatus {
    pub conditions: Option<Vec<BackupCondition>>,
}

/// Reference to the database server a backup belongs to.
#[derive(Clone, Debug)]
pub struct MariaDbRef {
    pub name: String,
    pub namespace: Option<String>,
}

/// The declared specification of a backup resource.
#[derive(Clone, Debug)]
pub struct BackupSpec {
    pub databases: Option<Vec<String>>,
    pub maria_db_ref: MariaDbRef,
}

/// A backup resource record as held in the resource cache: the unique name,
/// the declared spec and the last observed status.
#[derive(Clone, Debug)]
pub struct Backup {
    pub name: String,
    pub spec_: BackupSpec,
    pub status: Option<BackupStatus>,
}

/// Mathematical model of a condition: every text field as a sequence of
/// characters.
pub ghost struct CondModel {
    pub last_transition_time: Option<Seq<char>>,
    pub message: Option<Seq<char>>,
    pub reason: Option<Seq<char>>,
    pub status: Seq<char>,
    pub type_: Seq<char>,
}

/// Mathematical model of a backup status.
pub ghost struct StatusModel {
    pub conditions: Option<Seq<CondModel>>,
}

/// Mathematical model of a database server reference.
pub ghost struct RefModel {
    pub name: Seq<char>,
    pub namespace: Option<Seq<char>>,
}

/// Mathematical model of a backup spec.
pub ghost struct SpecModel {
    pub databases: Option<Seq<Seq<char>>>,
    pub maria_db_ref: RefModel,
}

/// Mathematical model of a backup resource record.
pub ghost struct BackupModel {
    pub name: Seq<char>,
    pub spec_: SpecModel,
    pub status: Option<StatusModel>,
}

impl DeepView for BackupCondition {
    type V = CondModel;

    open spec fn deep_view(&self) -> CondModel {
        CondModel {
            last_transition_time: self.last_transition_time.deep_view(),
            message: self.message.deep_view(),
            reason: self.reason.deep_view(),
            status: self.status.deep_view(),
            type_: self.type_.deep_view(),
        }
    }
}

impl DeepView for BackupStatus {
    type V = StatusModel;

    open spec fn deep_view(&self) -> StatusModel {
        StatusModel { conditions: self.conditions.deep_view() }
    }
}

impl DeepView for MariaDbRef {
    type V = RefModel;

    open spec fn deep_view(&self) -> RefModel {
        RefModel { name: self.name.deep_view(), namespace: self.namespace.deep_view() }
    }
}

impl DeepView for BackupSpec {
    type V = SpecModel;

    open spec fn deep_view(&self) -> SpecModel {
        SpecModel {
            databases: self.databases.deep_view(),
            maria_db_ref: self.maria_db_ref.deep_view(),
        }
    }
}

impl DeepView for Backup {
    type V = BackupModel;

    open spec fn deep_view(&self) -> BackupModel {
        BackupModel {
            name: self.name.deep_view(),
            spec_: self.spec_.deep_view(),
            status: self.status.deep_view(),
        }
    }
}

/// A condition is authoritative when its type tag is "Complete".
pub open spec fn is_complete(c: CondModel) -> bool {
    c.type_ == "Complete"@
}

/// A Complete condition reporting status "True".
pub open spec fn is_success_cond(c: CondModel) -> bool {
    is_complete(c) && c.status == "True"@
}

/// A Complete condition reporting status "False" with message "Scheduled".
pub open spec fn is_scheduled_cond(c: CondModel) -> bool {
    is_complete(c) && c.status == "False"@ && c.message == Some("Scheduled"@)
}

/// A Complete condition reporting status "False" with message "Running".
pub open spec fn is_running_cond(c: CondModel) -> bool {
    is_complete(c) && c.status == "False"@ && c.message == Some("Running"@)
}

/// A status is successful when some Complete condition reports "True".
pub open spec fn status_success(s: StatusModel) -> bool {
    match s.conditions {
        Some(cs) => exists|i: int| 0 <= i < cs.len() && is_success_cond(cs[i]),
        None => false,
    }
}

/// A status is scheduled when some Complete condition reports "False"
/// with message "Scheduled".
pub open spec fn status_scheduled(s: StatusModel) -> bool {
    match s.conditions {
        Some(cs) => exists|i: int| 0 <= i < cs.len() && is_scheduled_cond(cs[i]),
        None => false,
    }
}

/// A status is running when some Complete condition reports "False"
/// with message "Running".
pub open spec fn status_running(s: StatusModel) -> bool {
    match s.conditions {
        Some(cs) => exists|i: int| 0 <= i < cs.len() && is_running_cond(cs[i]),
        None => false,
    }
}

/// Failure is the catch-all: none of success, scheduled or running hold.
pub open spec fn status_failed(s: StatusModel) -> bool {
    !status_success(s) && !status_scheduled(s) && !status_running(s)
}

/// The first Complete condition at or after index `i`, if any.
pub open spec fn first_complete_from(cs: Seq<CondModel>, i: int) -> Option<CondModel>
    decreases cs.len() - i when 0 <= i <= cs.len()
{
    if i >= cs.len() {
        None
    } else if is_complete(cs[i]) {
        Some(cs[i])
    } else {
        first_complete_from(cs, i + 1)
    }
}

/// The first Complete condition of a status, if any.
pub open spec fn first_complete(s: StatusModel) -> Option<CondModel> {
    match s.conditions {
        Some(cs) => first_complete_from(cs, 0),
        None => None,
    }
}

/// The reason carried by the first Complete condition, if any.
pub open spec fn status_reason(s: StatusModel) -> Option<Seq<char>> {
    match first_complete(s) {
        Some(c) => c.reason,
        None => None,
    }
}

/// The last-transition text carried by the first Complete condition, if any.
pub open spec fn status_last_transition(s: StatusModel) -> Option<Seq<char>> {
    match first_complete(s) {
        Some(c) => c.last_transition_time,
        None => None,
    }
}

/// Compares an owned string with a borrowed one by their character sequences.
pub(crate) fn string_eq(s: &String, t: &str) -> (r: bool)
    ensures
        r == (s@ == t@),
{
    let u: String = t.to_owned();
    *s == u
}

fn cond_complete(c: &BackupCondition) -> (r: bool)
    ensures
        r == is_complete(c.deep_view()),
{
    string_eq(&c.type_, "Complete")
}

fn cond_success(c: &BackupCondition) -> (r: bool)
    ensures
        r == is_success_cond(c.deep_view()),
{
    string_eq(&c.type_, "Complete") && string_eq(&c.status, "True")
}

fn cond_scheduled(c: &BackupCondition) -> (r: bool)
    ensures
        r == is_scheduled_cond(c.deep_view()),
{
    if !string_eq(&c.type_, "Complete") {
        return false;
    }
    if !string_eq(&c.status, "False") {
        return false;
    }
    match &c.message {
        Some(m) => string_eq(m, "Scheduled"),
        None => false,
    }
}

fn cond_running(c: &BackupCondition) -> (r: bool)
    ensures
        r == is_running_cond(c.deep_view()),
{
    if !string_eq(&c.type_, "Complete") {
        return false;
    }
    if !string_eq(&c.status, "False") {
        return false;
    }
    match &c.message {
        Some(m) => string_eq(m, "Running"),
        None => false,
    }
}

impl BackupStatus {
    /// True exactly when some Complete condition reports status "True".
    pub fn success(&self) -> (r: bool)
        ensures
            r == status_success(self.deep_view()),
    {
        match &self.conditions {
            None => false,
            Some(cs) => {
                let ghost dv = cs.deep_view();
                let mut i: usize = 0;
                while i < cs.len()
                    invariant
                        i <= cs.len(),
                        dv == cs.deep_view(),
                        self.deep_view().conditions == Some(dv),
                        forall|j: int| 0 <= j < i ==> !is_success_cond(dv[j]),
                    decreases cs.len() - i,
                {
                    if cond_success(&cs[i]) {
                        proof {
                            assert(dv.len() == cs@.len());
                            assert(is_success_cond(dv[i as int]));
                            assert(self.deep_view().conditions matches Some(x) && x == dv);
                            assert(exists|j: int| 0 <= j < dv.len() && is_success_cond(dv[j]));
                            assert(status_success(self.deep_view()));
                        }
                        return true;
                    }
                    i += 1;
                }
                false
            },
        }
    }

    /// True exactly when some Complete condition reports status "False"
    /// with message "Scheduled".
    pub fn scheduled(&self) -> (r: bool)
        ensures
            r == status_scheduled(self.deep_view()),
    {
        match &self.conditions {
            None => false,
            Some(cs) => {
                let ghost dv = cs.deep_view();
                let mut i: usize = 0;
                while i < cs.len()
                    invariant
                        i <= cs.len(),
                        dv == cs.deep_view(),
                        self.deep_view().conditions == Some(dv),
                        forall|j: int| 0 <= j < i ==> !is_scheduled_cond(dv[j]),
                    decreases cs.len() - i,
                {
                    if cond_scheduled(&cs[i]) {
                        proof {
                            assert(dv.len() == cs@.len());
                            assert(is_scheduled_cond(dv[i as int]));
                            assert(self.deep_view().conditions matches Some(x) && x == dv);
                            assert(exists|j: int| 0 <= j < dv.len() && is_scheduled_cond(dv[j]));
                            assert(status_scheduled(self.deep_view()));
                        }
                        return true;
                    }
                    i += 1;
                }
                false
            },
        }
    }

    /// True exactly when some Complete condition reports status "False"
    /// with message "Running".
    pub fn running(&self) -> (r: bool)
        ensures
            r == status_running(self.deep_view()),
    {
        match &self.conditions {
            None => false,
            Some(cs) => {
                let ghost dv = cs.deep_view();
                let mut i: usize = 0;
                while i < cs.len()
                    invariant
                        i <= cs.len(),
                        dv == cs.deep_view(),
                        self.deep_view().conditions == Some(dv),
                        forall|j: int| 0 <= j < i ==> !is_running_cond(dv[j]),
                    decreases cs.len() - i,
                {
                    if cond_running(&cs[i]) {
                        proof {
                            assert(dv.len() == cs@.len());
                            assert(is_running_cond(dv[i as int]));
                            assert(self.deep_view().conditions matches Some(x) && x == dv);
                            assert(exists|j: int| 0 <= j < dv.len() && is_running_cond(dv[j]));
                            assert(status_running(self.deep_view()));
                        }
                        return true;
                    }
                    i += 1;
                }
                false
            },
        }
    }

    /// The catch-all: true exactly when the status is neither successful
    /// nor scheduled nor running.
    pub fn failed(&self) -> (r: bool)
        ensures
            r == status_failed(self.deep_view()),
    {
        !self.running() && !self.success() && !self.scheduled()
    }

    /// The reason of the first Complete condition, or `None` when no
    /// Complete condition exists.
    pub fn reason(&self) -> (r: Option<String>)
        ensures
            r.deep_view() == status_reason(self.deep_view()),
    {
        match &self.conditions {
            None => None,
            Some(cs) => {
                let ghost dv = cs.deep_view();
                let mut i: usize = 0;
                while i < cs.len()
                    invariant
                        i <= cs.len(),
                        dv == cs.deep_view(),
                        self.deep_view().conditions == Some(dv),
                        first_complete_from(dv, 0) == first_complete_from(dv, i as int),
                    decreases cs.len() - i,
                {
                    if cond_complete(&cs[i]) {
                        assert(first_complete_from(dv, i as int) == Some(dv[i as int]));
                        return match &cs[i].reason {
                            Some(s) => Some(s.clone()),
                            None => None,
                        };
                    }
                    i += 1;
                }
                assert(first_complete_from(dv, i as int) is None);
                None
            },
        }
    }

    /// The Unix-seconds reading of the first Complete condition's
    /// last-transition text: `None` when no Complete condition exists,
    /// when it carries no transition text, or when the text does not parse.
    pub fn last_run(&self) -> (r: Option<i64>)
        ensures
            r == match status_last_transition(self.deep_view()) {
                Some(t) => rfc3339_unix(t),
                None => None::<i64>,
            },
    {
        match &self.conditions {
            None => None,
            Some(cs) => {
                let ghost dv = cs.deep_view();
                let mut i: usize = 0;
                while i < cs.len()
                    invariant
                        i <= cs.len(),
                        dv == cs.deep_view(),
                        self.deep_view().conditions == Some(dv),
                        first_complete_from(dv, 0) == first_complete_from(dv, i as int),
                    decreases cs.len() - i,
                {
                    if cond_complete(&cs[i]) {
                        assert(first_complete_from(dv, i as int) == Some(dv[i as int]));
                        return match &cs[i].last_transition_time {
                            Some(s) => rfc3339_to_unix(s.as_str()),
                            None => None,
                        };
                    }
                    i += 1;
                }
                assert(first_complete_from(dv, i as int) is None);
                None
            },
        }
    }
}

} // verus!
