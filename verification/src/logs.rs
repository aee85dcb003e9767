//! The records that the filtering passes hand back: one per removed package,
//! with the reason for its removal.

use vstd::prelude::*;
use vstd::string::StringExecFns;

use crate::text::decimal;
use crate::text::decimal_string;

verus! {

/// What every removal record can tell: which package file was removed, the
/// package's name, and a line that explains the removal.
pub trait Log<'a> {
    /// The removed package's file name.
    spec fn filename_text(&self) -> Seq<char>;

    /// The removed package's name.
    spec fn package_name_text(&self) -> Seq<char>;

    /// The line that explains the removal.
    spec fn message_text(&self) -> Seq<char>;

    fn filename(&self) -> (res: &'a str)
        ensures
            res@ == self.filename_text(),
    ;

    fn package_name(&self) -> (res: &'a str)
        ensures
            res@ == self.package_name_text(),
    ;

    fn message(&self) -> (res: String)
        ensures
            res@ == self.message_text(),
    ;
}

/// A removal as plain values: the file removed, the name of its package,
/// and the line that explains the removal.
pub trait Removal {
    /// The removed package's file name.
    spec fn file(&self) -> Seq<char>;

    /// The removed package's name.
    spec fn package(&self) -> Seq<char>;

    /// The line that explains the removal.
    spec fn line(&self) -> Seq<char>;
}

/// A package was removed because one of its dependencies can no longer be
/// met. `cause_filename` names a removed package that would have met it, if
/// there is one.
pub struct RemovedUnsatisfiableLog<'a> {
    pub filename: &'a str,
    pub package_name: &'a str,
    pub dependency_package_name: &'a str,
    pub matchspec: &'a str,
    pub cause_filename: Option<&'a str>,
}

/// `RemovedUnsatisfiableLog` as plain values.
pub struct RemovedUnsatisfiableView {
    pub filename: Seq<char>,
    pub package_name: Seq<char>,
    pub dependency_package_name: Seq<char>,
    pub matchspec: Seq<char>,
    pub cause_filename: Option<Seq<char>>,
}

impl<'a> View for RemovedUnsatisfiableLog<'a> {
    type V = RemovedUnsatisfiableView;

    open spec fn view(&self) -> RemovedUnsatisfiableView {
        RemovedUnsatisfiableView {
            filename: self.filename@,
            package_name: self.package_name@,
            dependency_package_name: self.dependency_package_name@,
            matchspec: self.matchspec@,
            cause_filename: match self.cause_filename {
                Some(cause) => Some(cause@),
                None => None,
            },
        }
    }
}

impl Removal for RemovedUnsatisfiableView {
    open spec fn file(&self) -> Seq<char> {
        self.filename
    }

    open spec fn package(&self) -> Seq<char> {
        self.package_name
    }

    open spec fn line(&self) -> Seq<char> {
        let head = self.filename + " removed: dependency "@ + self.dependency_package_name
            + " "@ + self.matchspec;
        match self.cause_filename {
            Some(cause) => head + " unsatisfiable after removal of "@ + cause,
            None => head + " unsatisfiable, seemingly due to no fault of our own"@,
        }
    }
}

impl<'a> Log<'a> for RemovedUnsatisfiableLog<'a> {
    open spec fn filename_text(&self) -> Seq<char> {
        self@.file()
    }

    open spec fn package_name_text(&self) -> Seq<char> {
        self@.package()
    }

    open spec fn message_text(&self) -> Seq<char> {
        self@.line()
    }

    fn filename(&self) -> (res: &'a str) {
        self.filename
    }

    fn package_name(&self) -> (res: &'a str) {
        self.package_name
    }

    fn message(&self) -> (res: String) {
        let mut line = String::from_str(self.filename);
        line.append(" removed: dependency ");
        line.append(self.dependency_package_name);
        line.append(" ");
        line.append(self.matchspec);
        match self.cause_filename {
            Some(cause) => {
                line.append(" unsatisfiable after removal of ");
                line.append(cause);
            },
            None => {
                line.append(" unsatisfiable, seemingly due to no fault of our own");
            },
        }
        line
    }
}

/// A package was removed because it fits no surviving variant of
/// `incompatible_with`.
pub struct RemovedBecauseIncompatibleLog<'a> {
    pub filename: &'a str,
    pub package_name: &'a str,
    pub incompatible_with: &'a str,
}

/// `RemovedBecauseIncompatibleLog` as plain values.
pub struct RemovedBecauseIncompatibleView {
    pub filename: Seq<char>,
    pub package_name: Seq<char>,
    pub incompatible_with: Seq<char>,
}

impl<'a> View for RemovedBecauseIncompatibleLog<'a> {
    type V = RemovedBecauseIncompatibleView;

    open spec fn view(&self) -> RemovedBecauseIncompatibleView {
        RemovedBecauseIncompatibleView {
            filename: self.filename@,
            package_name: self.package_name@,
            incompatible_with: self.incompatible_with@,
        }
    }
}

impl Removal for RemovedBecauseIncompatibleView {
    open spec fn file(&self) -> Seq<char> {
        self.filename
    }

    open spec fn package(&self) -> Seq<char> {
        self.package_name
    }

    open spec fn line(&self) -> Seq<char> {
        self.filename + " removed: incompatible with "@ + self.incompatible_with
    }
}

impl<'a> Log<'a> for RemovedBecauseIncompatibleLog<'a> {
    open spec fn filename_text(&self) -> Seq<char> {
        self@.file()
    }

    open spec fn package_name_text(&self) -> Seq<char> {
        self@.package()
    }

    open spec fn message_text(&self) -> Seq<char> {
        self@.line()
    }

    fn filename(&self) -> (res: &'a str) {
        self.filename
    }

    fn package_name(&self) -> (res: &'a str) {
        self.package_name
    }

    fn message(&self) -> (res: String) {
        let mut line = String::from_str(self.filename);
        line.append(" removed: incompatible with ");
        line.append(self.incompatible_with);
        line
    }
}

/// A package was removed because none of the user's constraints for its name
/// admits it.
pub struct RemovedByUserLog<'a> {
    pub filename: &'a str,
    pub package_name: &'a str,
}

/// `RemovedByUserLog` as plain values.
pub struct RemovedByUserView {
    pub filename: Seq<char>,
    pub package_name: Seq<char>,
}

impl<'a> View for RemovedByUserLog<'a> {
    type V = RemovedByUserView;

    open spec fn view(&self) -> RemovedByUserView {
        RemovedByUserView { filename: self.filename@, package_name: self.package_name@ }
    }
}

impl Removal for RemovedByUserView {
    open spec fn file(&self) -> Seq<char> {
        self.filename
    }

    open spec fn package(&self) -> Seq<char> {
        self.package_name
    }

    open spec fn line(&self) -> Seq<char> {
        self.filename + " removed: failed user matchspec"@
    }
}

impl<'a> Log<'a> for RemovedByUserLog<'a> {
    open spec fn filename_text(&self) -> Seq<char> {
        self@.file()
    }

    open spec fn package_name_text(&self) -> Seq<char> {
        self@.package()
    }

    open spec fn message_text(&self) -> Seq<char> {
        self@.line()
    }

    fn filename(&self) -> (res: &'a str) {
        self.filename
    }

    fn package_name(&self) -> (res: &'a str) {
        self.package_name
    }

    fn message(&self) -> (res: String) {
        let mut line = String::from_str(self.filename);
        line.append(" removed: failed user matchspec");
        line
    }
}

/// A package was removed because another build of the same version has the
/// higher build number `build_number`.
pub struct RemovedBySupercedingBuildLog<'a> {
    pub filename: &'a str,
    pub package_name: &'a str,
    pub build_number: u64,
}

/// `RemovedBySupercedingBuildLog` as plain values.
pub struct RemovedBySupercedingBuildView {
    pub filename: Seq<char>,
    pub package_name: Seq<char>,
    pub build_number: u64,
}

impl<'a> View for RemovedBySupercedingBuildLog<'a> {
    type V = RemovedBySupercedingBuildView;

    open spec fn view(&self) -> RemovedBySupercedingBuildView {
        RemovedBySupercedingBuildView {
            filename: self.filename@,
            package_name: self.package_name@,
            build_number: self.build_number,
        }
    }
}

impl Removal for RemovedBySupercedingBuildView {
    open spec fn file(&self) -> Seq<char> {
        self.filename
    }

    open spec fn package(&self) -> Seq<char> {
        self.package_name
    }

    open spec fn line(&self) -> Seq<char> {
        self.filename + " removed: superceded by build "@ + decimal(self.build_number as nat)
    }
}

impl<'a> Log<'a> for RemovedBySupercedingBuildLog<'a> {
    open spec fn filename_text(&self) -> Seq<char> {
        self@.file()
    }

    open spec fn package_name_text(&self) -> Seq<char> {
        self@.package()
    }

    open spec fn message_text(&self) -> Seq<char> {
        self@.line()
    }

    fn filename(&self) -> (res: &'a str) {
        self.filename
    }

    fn package_name(&self) -> (res: &'a str) {
        self.package_name
    }

    fn message(&self) -> (res: String) {
        let mut line = String::from_str(self.filename);
        line.append(" removed: superceded by build ");
        let number = decimal_string(self.build_number);
        line.append(number.as_str());
        line
    }
}

/// A package was removed because its version is a development or release
/// candidate version and the policy bans those.
pub struct RemovedByDevRcPolicyLog<'a> {
    pub filename: &'a str,
    pub package_name: &'a str,
}

/// `RemovedByDevRcPolicyLog` as plain values.
pub struct RemovedByDevRcPolicyView {
    pub filename: Seq<char>,
    pub package_name: Seq<char>,
}

impl<'a> View for RemovedByDevRcPolicyLog<'a> {
    type V = RemovedByDevRcPolicyView;

    open spec fn view(&self) -> RemovedByDevRcPolicyView {
        RemovedByDevRcPolicyView { filename: self.filename@, package_name: self.package_name@ }
    }
}

impl Removal for RemovedByDevRcPolicyView {
    open spec fn file(&self) -> Seq<char> {
        self.filename
    }

    open spec fn package(&self) -> Seq<char> {
        self.package_name
    }

    open spec fn line(&self) -> Seq<char> {
        self.filename + " removed: dev/rc policy"@
    }
}

impl<'a> Log<'a> for RemovedByDevRcPolicyLog<'a> {
    open spec fn filename_text(&self) -> Seq<char> {
        self@.file()
    }

    open spec fn package_name_text(&self) -> Seq<char> {
        self@.package()
    }

    open spec fn message_text(&self) -> Seq<char> {
        self@.line()
    }

    fn filename(&self) -> (res: &'a str) {
        self.filename
    }

    fn package_name(&self) -> (res: &'a str) {
        self.package_name
    }

    fn message(&self) -> (res: String) {
        let mut line = String::from_str(self.filename);
        line.append(" removed: dev/rc policy");
        line
    }
}

/// A package was removed because it carries the banned feature `feature`.
pub struct RemovedWithFeatureLog<'a> {
    pub filename: &'a str,
    pub package_name: &'a str,
    pub feature: &'a str,
}

/// `RemovedWithFeatureLog` as plain values.
pub struct RemovedWithFeatureView {
    pub filename: Seq<char>,
    pub package_name: Seq<char>,
    pub feature: Seq<char>,
}

impl<'a> View for RemovedWithFeatureLog<'a> {
    type V = RemovedWithFeatureView;

    open spec fn view(&self) -> RemovedWithFeatureView {
        RemovedWithFeatureView {
            filename: self.filename@,
            package_name: self.package_name@,
            feature: self.feature@,
        }
    }
}

impl Removal for RemovedWithFeatureView {
    open spec fn file(&self) -> Seq<char> {
        self.filename
    }

    open spec fn package(&self) -> Seq<char> {
        self.package_name
    }

    open spec fn line(&self) -> Seq<char> {
        self.filename + " removed: has banned feature "@ + self.feature
    }
}

impl<'a> Log<'a> for RemovedWithFeatureLog<'a> {
    open spec fn filename_text(&self) -> Seq<char> {
        self@.file()
    }

    open spec fn package_name_text(&self) -> Seq<char> {
        self@.package()
    }

    open spec fn message_text(&self) -> Seq<char> {
        self@.line()
    }

    fn filename(&self) -> (res: &'a str) {
        self.filename
    }

    fn package_name(&self) -> (res: &'a str) {
        self.package_name
    }

    fn message(&self) -> (res: String) {
        let mut line = String::from_str(self.filename);
        line.append(" removed: has banned feature ");
        line.append(self.feature);
        line
    }
}

/// A package was removed because it depends on the virtual package
/// `virtual_package`, which the architecture `actual_architecture` never has.
pub struct RemovedIncompatibleArchitectureLog<'a> {
    pub filename: &'a str,
    pub package_name: &'a str,
    pub virtual_package: &'a str,
    pub actual_architecture: &'a str,
}

/// `RemovedIncompatibleArchitectureLog` as plain values.
pub struct RemovedIncompatibleArchitectureView {
    pub filename: Seq<char>,
    pub package_name: Seq<char>,
    pub virtual_package: Seq<char>,
    pub actual_architecture: Seq<char>,
}

impl<'a> View for RemovedIncompatibleArchitectureLog<'a> {
    type V = RemovedIncompatibleArchitectureView;

    open spec fn view(&self) -> RemovedIncompatibleArchitectureView {
        RemovedIncompatibleArchitectureView {
            filename: self.filename@,
            package_name: self.package_name@,
            virtual_package: self.virtual_package@,
            actual_architecture: self.actual_architecture@,
        }
    }
}

impl Removal for RemovedIncompatibleArchitectureView {
    open spec fn file(&self) -> Seq<char> {
        self.filename
    }

    open spec fn package(&self) -> Seq<char> {
        self.package_name
    }

    open spec fn line(&self) -> Seq<char> {
        self.filename + " removed: relies on "@ + self.virtual_package
            + " which is impossible in "@ + self.actual_architecture
    }
}

impl<'a> Log<'a> for RemovedIncompatibleArchitectureLog<'a> {
    open spec fn filename_text(&self) -> Seq<char> {
        self@.file()
    }

    open spec fn package_name_text(&self) -> Seq<char> {
        self@.package()
    }

    open spec fn message_text(&self) -> Seq<char> {
        self@.line()
    }

    fn filename(&self) -> (res: &'a str) {
        self.filename
    }

    fn package_name(&self) -> (res: &'a str) {
        self.package_name
    }

    fn message(&self) -> (res: String) {
        let mut line = String::from_str(self.filename);
        line.append(" removed: relies on ");
        line.append(self.virtual_package);
        line.append(" which is impossible in ");
        line.append(self.actual_architecture);
        line
    }
}

} // verus!
